//! Read-time derivations over a project's trace graph: closures (trace-up /
//! impact-down), direct sources, coverage, the number-aware order and the
//! requirement-anchored arrangement. The graph may have cycles.
use vstd::prelude::*;
use crate::trace_model::{LinkType, TraceNode, TraceNodeKind};

verus! {

/// `Up` follows links in their stored direction (source -> target);
/// `Down` walks them backwards (target -> source), i.e. the impact set.
#[derive(Debug, Clone, Copy, PartialEq, Eq, Structural)]
pub enum Direction {
    Up,
    Down,
}

/// A link as stored: `(source, target, type)`.
pub type Edge = (u128, u128, LinkType);

pub open spec fn opt_types(allowed: Option<&[LinkType]>) -> Option<Seq<LinkType>> {
    match allowed {
        Some(l) => Some(l@),
        None => None,
    }
}

/// A link type passes the filter when there is no filter or the filter lists it.
pub open spec fn type_allowed(allowed: Option<Seq<LinkType>>, t: LinkType) -> bool {
    match allowed {
        Some(l) => l.contains(t),
        None => true,
    }
}

/// The step that a link allows in the given direction.
pub open spec fn orient(e: Edge, dir: Direction) -> (u128, u128) {
    match dir {
        Direction::Up => (e.0, e.1),
        Direction::Down => (e.1, e.0),
    }
}

/// The allowed steps, in link order.
pub open spec fn adjacency_spec(
    links: Seq<Edge>,
    dir: Direction,
    allowed: Option<Seq<LinkType>>,
) -> Seq<(u128, u128)>
    decreases links.len(),
{
    if links.len() == 0 {
        Seq::empty()
    } else {
        let rest = adjacency_spec(links.drop_last(), dir, allowed);
        if type_allowed(allowed, links.last().2) {
            rest.push(orient(links.last(), dir))
        } else {
            rest
        }
    }
}

/// Nodes reachable from `roots` in at most `k` steps.
pub open spec fn reach_within(adj: Seq<(u128, u128)>, roots: Set<u128>, k: nat) -> Set<u128>
    decreases k,
{
    if k == 0 {
        roots
    } else {
        let prev = reach_within(adj, roots, (k - 1) as nat);
        prev.union(
            Set::new(
                |b: u128|
                    exists|i: int|
                        0 <= i < adj.len() && prev.contains(#[trigger] adj[i].0) && adj[i].1 == b,
            ),
        )
    }
}

pub open spec fn reachable(adj: Seq<(u128, u128)>, roots: Set<u128>, n: u128) -> bool {
    exists|k: nat| #[trigger] reach_within(adj, roots, k).contains(n)
}

/// What `closure` gives back: the nodes reachable from the roots (zero or
/// more allowed steps in the direction), the roots themselves left out.
pub open spec fn closure_spec(
    links: Seq<Edge>,
    roots: Seq<u128>,
    dir: Direction,
    allowed: Option<Seq<LinkType>>,
) -> Set<u128> {
    Set::new(
        |n: u128|
            reachable(adjacency_spec(links, dir, allowed), roots.to_set(), n) && !roots.contains(n),
    )
}

/// Whether `t` passes the optional link type filter.
pub fn allowed_fn(allowed: Option<&[LinkType]>, t: LinkType) -> (r: bool)
    ensures
        r == type_allowed(opt_types(allowed), t),
{
    match allowed {
        None => true,
        Some(list) => {
            assert(opt_types(allowed) == Some(list@));
            let mut i: usize = 0;
            while i < list.len()
                invariant
                    i <= list@.len(),
                    opt_types(allowed) == Some(list@),
                    forall|j: int| 0 <= j < i ==> list@[j] != t,
                decreases list.len() - i,
            {
                if list[i] == t {
                    assert(list@[i as int] == t);
                    return true;
                }
                i = i + 1;
            }
            false
        },
    }
}

/// The allowed steps of the graph in the given direction.
pub fn adjacency(links: &[Edge], dir: Direction, allowed: Option<&[LinkType]>) -> (r: Vec<
    (u128, u128),
>)
    ensures
        r@ == adjacency_spec(links@, dir, opt_types(allowed)),
{
    let mut r: Vec<(u128, u128)> = Vec::new();
    let mut i: usize = 0;
    while i < links.len()
        invariant
            i <= links@.len(),
            r@ == adjacency_spec(links@.take(i as int), dir, opt_types(allowed)),
        decreases links.len() - i,
    {
        let (s, t, lt) = links[i];
        assert(links@.take(i + 1).drop_last() =~= links@.take(i as int));
        if allowed_fn(allowed, lt) {
            match dir {
                Direction::Up => r.push((s, t)),
                Direction::Down => r.push((t, s)),
            }
        }
        i = i + 1;
    }
    assert(links@.take(links@.len() as int) =~= links@);
    r
}

pub fn vec_contains(v: &Vec<u128>, x: u128) -> (r: bool)
    ensures
        r == v@.contains(x),
{
    let mut i: usize = 0;
    while i < v.len()
        invariant
            i <= v@.len(),
            forall|j: int| 0 <= j < i ==> v@[j] != x,
        decreases v.len() - i,
    {
        if v[i] == x {
            return true;
        }
        i = i + 1;
    }
    false
}

pub fn slice_contains(v: &[u128], x: u128) -> (r: bool)
    ensures
        r == v@.contains(x),
{
    let mut i: usize = 0;
    while i < v.len()
        invariant
            i <= v@.len(),
            forall|j: int| 0 <= j < i ==> v@[j] != x,
        decreases v.len() - i,
    {
        if v[i] == x {
            return true;
        }
        i = i + 1;
    }
    false
}

/// A set closed under the steps that holds the roots holds everything reachable.
proof fn lemma_closed_holds_reach(
    adj: Seq<(u128, u128)>,
    roots: Set<u128>,
    vis: Set<u128>,
    k: nat,
)
    requires
        roots.subset_of(vis),
        forall|i: int| 0 <= i < adj.len() && vis.contains(#[trigger] adj[i].0) ==> vis.contains(
            adj[i].1,
        ),
    ensures
        reach_within(adj, roots, k).subset_of(vis),
    decreases k,
{
    if k > 0 {
        lemma_closed_holds_reach(adj, roots, vis, (k - 1) as nat);
    }
}

proof fn lemma_step(adj: Seq<(u128, u128)>, roots: Set<u128>, i: int, k: nat)
    requires
        0 <= i < adj.len(),
        reach_within(adj, roots, k).contains(adj[i].0),
    ensures
        reach_within(adj, roots, k + 1).contains(adj[i].1),
{
    let prev = reach_within(adj, roots, k);
    assert(reach_within(adj, roots, (k + 1) as nat) == prev.union(
        Set::new(
            |b: u128|
                exists|j: int| 0 <= j < adj.len() && prev.contains(#[trigger] adj[j].0) && adj[j].1 == b,
        ),
    ));
}

/// Everything reachable from `roots` along `dir` (through links whose type
/// passes `allowed`), the roots left out. Cycles are harmless.
pub fn closure(links: &[Edge], roots: &[u128], dir: Direction, allowed: Option<&[LinkType]>) -> (r:
    Vec<u128>)
    ensures
        r@.no_duplicates(),
        forall|n: u128|
            r@.contains(n) <==> closure_spec(links@, roots@, dir, opt_types(allowed)).contains(n),
{
    let adj = adjacency(links, dir, allowed);
    let ghost rs = roots@.to_set();
    // every node that can ever be visited
    let mut universe: Vec<u128> = Vec::new();
    let mut i: usize = 0;
    while i < roots.len()
        invariant
            i <= roots@.len(),
            forall|j: int| 0 <= j < i ==> universe@.contains(#[trigger] roots@[j]),
        decreases roots.len() - i,
    {
        let ghost old_u = universe@;
        universe.push(roots[i]);
        assert forall|x: u128| old_u.contains(x) implies universe@.contains(x) by {
            let w = choose|w: int| 0 <= w < old_u.len() && old_u[w] == x;
            assert(universe@[w] == x);
        }
        assert(universe@[universe@.len() - 1] == roots@[i as int]);
        i = i + 1;
    }
    let mut i: usize = 0;
    while i < adj.len()
        invariant
            i <= adj@.len(),
            forall|j: int| 0 <= j < roots@.len() ==> universe@.contains(#[trigger] roots@[j]),
            forall|j: int| 0 <= j < i ==> universe@.contains(#[trigger] adj@[j].1),
        decreases adj.len() - i,
    {
        let ghost old_u = universe@;
        universe.push(adj[i].1);
        assert forall|x: u128| old_u.contains(x) implies universe@.contains(x) by {
            let w = choose|w: int| 0 <= w < old_u.len() && old_u[w] == x;
            assert(universe@[w] == x);
        }
        assert(universe@[universe@.len() - 1] == adj@[i as int].1);
        i = i + 1;
    }
    // the roots, without repeats
    let mut visited: Vec<u128> = Vec::new();
    let mut i: usize = 0;
    while i < roots.len()
        invariant
            i <= roots@.len(),
            visited@.no_duplicates(),
            forall|x: u128| visited@.contains(x) ==> rs.contains(x),
            forall|j: int| 0 <= j < i ==> visited@.contains(#[trigger] roots@[j]),
            rs == roots@.to_set(),
        decreases roots.len() - i,
    {
        let x = roots[i];
        if !vec_contains(&visited, x) {
            let ghost old_v = visited@;
            visited.push(x);
            assert forall|y: u128| old_v.contains(y) implies visited@.contains(y) by {
                let w = choose|w: int| 0 <= w < old_v.len() && old_v[w] == y;
                assert(visited@[w] == y);
            }
            assert(visited@[visited@.len() - 1] == x);
            assert(rs.contains(x));
        }
        i = i + 1;
    }
    assert(rs.subset_of(visited@.to_set()));
    assert forall|x: u128| visited@.contains(x) implies universe@.contains(x) by {
        assert(rs.contains(x));
        let w = choose|w: int| 0 <= w < roots@.len() && roots@[w] == x;
        assert(universe@.contains(roots@[w]));
    }
    assert forall|x: u128| visited@.contains(x) implies reachable(adj@, rs, x) by {
        assert(reach_within(adj@, rs, 0).contains(x));
    }
    let mut p: usize = 0;
    while p < visited.len()
        invariant
            p <= visited@.len(),
            visited@.no_duplicates(),
            rs == roots@.to_set(),
            rs.subset_of(visited@.to_set()),
            forall|x: u128| visited@.contains(x) ==> universe@.contains(x),
            forall|x: u128| visited@.contains(x) ==> reachable(adj@, rs, x),
            forall|j: int| 0 <= j < roots@.len() ==> universe@.contains(#[trigger] roots@[j]),
            forall|j: int| 0 <= j < adj@.len() ==> universe@.contains(#[trigger] adj@[j].1),
            forall|q: int, j: int|
                0 <= q < p && 0 <= j < adj@.len() && #[trigger] adj@[j].0 == #[trigger] visited@[q]
                    ==> visited@.contains(adj@[j].1),
        decreases universe@.len() - p,
    {
        let n = visited[p];
        let ghost before = visited@;
        let mut j: usize = 0;
        while j < adj.len()
            invariant
                j <= adj@.len(),
                p < before.len() <= visited@.len(),
                forall|q: int| 0 <= q < before.len() ==> visited@[q] == before[q],
                before[p as int] == n,
                visited@.no_duplicates(),
                rs.subset_of(visited@.to_set()),
                forall|x: u128| visited@.contains(x) ==> universe@.contains(x),
                forall|x: u128| visited@.contains(x) ==> reachable(adj@, rs, x),
                forall|jj: int| 0 <= jj < adj@.len() ==> universe@.contains(#[trigger] adj@[jj].1),
                forall|jj: int| 0 <= jj < j && adj@[jj].0 == n ==> visited@.contains(#[trigger] adj@[jj].1),
            decreases adj.len() - j,
        {
            let (a, b) = adj[j];
            if a == n && !vec_contains(&visited, b) {
                let ghost old_v = visited@;
                proof {
                    assert(old_v.contains(n)) by {
                        assert(old_v[p as int] == n);
                    }
                    let k = choose|k: nat| #[trigger] reach_within(adj@, rs, k).contains(n);
                    lemma_step(adj@, rs, j as int, k);
                    assert(reach_within(adj@, rs, (k + 1) as nat).contains(b));
                    assert(reachable(adj@, rs, b));
                }
                visited.push(b);
                assert forall|y: u128| old_v.contains(y) implies visited@.contains(y) by {
                    let w = choose|w: int| 0 <= w < old_v.len() && old_v[w] == y;
                    assert(visited@[w] == y);
                }
                assert(visited@[visited@.len() - 1] == b);
                assert forall|y: u128| visited@.contains(y) implies (old_v.contains(y) || y == b) by {
                    let w = choose|w: int| 0 <= w < visited@.len() && visited@[w] == y;
                    if w < old_v.len() {
                        assert(old_v[w] == y);
                    }
                }
                assert forall|y: u128| visited@.contains(y) implies reachable(adj@, rs, y) by {
                    if y != b {
                        assert(old_v.contains(y));
                    }
                }
            }
            j = j + 1;
        }
        assert forall|q: int, jj: int|
            0 <= q < p + 1 && 0 <= jj < adj@.len() && #[trigger] adj@[jj].0 == #[trigger] visited@[q]
                implies visited@.contains(adj@[jj].1) by {
            assert(visited@[q] == before[q]);
        }
        proof {
            assert(visited@.to_set().subset_of(universe@.to_set()));
            vstd::set_lib::lemma_len_subset(visited@.to_set(), universe@.to_set());
            visited@.unique_seq_to_set();
            universe@.lemma_cardinality_of_set();
        }
        p = p + 1;
    }
    // `visited` is closed under the steps, so it holds everything reachable
    proof {
        assert forall|jj: int| 0 <= jj < adj@.len() && visited@.to_set().contains(
            #[trigger] adj@[jj].0,
        ) implies visited@.to_set().contains(adj@[jj].1) by {
            let q = choose|q: int| 0 <= q < visited@.len() && visited@[q] == adj@[jj].0;
        }
        assert forall|x: u128| reachable(adj@, rs, x) implies visited@.contains(x) by {
            let k = choose|k: nat| #[trigger] reach_within(adj@, rs, k).contains(x);
            lemma_closed_holds_reach(adj@, rs, visited@.to_set(), k);
        }
    }
    let mut r: Vec<u128> = Vec::new();
    let mut i: usize = 0;
    while i < visited.len()
        invariant
            i <= visited@.len(),
            visited@.no_duplicates(),
            r@.no_duplicates(),
            forall|x: u128|
                r@.contains(x) <==> ((exists|w: int| 0 <= w < i && #[trigger] visited@[w] == x)
                    && !roots@.contains(x)),
        decreases visited.len() - i,
    {
        let x = visited[i];
        let ghost old_r = r@;
        if !slice_contains(roots, x) {
            r.push(x);
            assert(r@[r@.len() - 1] == x);
            assert(!old_r.contains(x)) by {
                if old_r.contains(x) {
                    let w = choose|w: int| 0 <= w < i && #[trigger] visited@[w] == x;
                    assert(visited@[i as int] == x);
                }
            }
        }
        assert forall|y: u128|
            r@.contains(y) <==> ((exists|w: int| 0 <= w < i + 1 && #[trigger] visited@[w] == y)
                && !roots@.contains(y)) by {
            if r@.contains(y) {
                let w = choose|w: int| 0 <= w < r@.len() && r@[w] == y;
                if w < old_r.len() {
                    assert(old_r[w] == y);
                    assert(old_r.contains(y));
                    let v = choose|v: int| 0 <= v < i && #[trigger] visited@[v] == y;
                } else {
                    assert(visited@[i as int] == y);
                }
            }
            if (exists|w: int| 0 <= w < i + 1 && #[trigger] visited@[w] == y) && !roots@.contains(y) {
                let w = choose|w: int| 0 <= w < i + 1 && #[trigger] visited@[w] == y;
                if w < i {
                    assert(old_r.contains(y));
                    let v = choose|v: int| 0 <= v < old_r.len() && old_r[v] == y;
                    assert(r@[v] == y);
                } else {
                    assert(r@[r@.len() - 1] == y);
                }
            }
        }
        i = i + 1;
    }
    assert forall|x: u128| visited@.contains(x) implies (exists|w: int|
        0 <= w < visited@.len() && #[trigger] visited@[w] == x) by {
        let w = choose|w: int| 0 <= w < visited@.len() && visited@[w] == x;
        assert(visited@[w] == x);
    }
    assert forall|n: u128| closure_spec(links@, roots@, dir, opt_types(allowed)).contains(
        n,
    ) implies r@.contains(n) by {
        assert(visited@.contains(n));
    }
    assert forall|n: u128| r@.contains(n) implies closure_spec(
        links@,
        roots@,
        dir,
        opt_types(allowed),
    ).contains(n) by {
        let w = choose|w: int| 0 <= w < visited@.len() && #[trigger] visited@[w] == n;
        assert(visited@.contains(n));
    }
    r
}

/// The `(source, type)` of every allowed link whose target is `target`, in link order.
pub open spec fn direct_sources_spec(
    links: Seq<Edge>,
    target: u128,
    allowed: Option<Seq<LinkType>>,
) -> Seq<(u128, LinkType)>
    decreases links.len(),
{
    if links.len() == 0 {
        Seq::empty()
    } else {
        let rest = direct_sources_spec(links.drop_last(), target, allowed);
        let e = links.last();
        if e.1 == target && type_allowed(allowed, e.2) {
            rest.push((e.0, e.2))
        } else {
            rest
        }
    }
}

/// The sources that trace directly into `target` (used by the trace matrix).
pub fn direct_sources(links: &[Edge], target: u128, allowed: Option<&[LinkType]>) -> (r: Vec<
    (u128, LinkType),
>)
    ensures
        r@ == direct_sources_spec(links@, target, opt_types(allowed)),
{
    let mut r: Vec<(u128, LinkType)> = Vec::new();
    let mut i: usize = 0;
    while i < links.len()
        invariant
            i <= links@.len(),
            r@ == direct_sources_spec(links@.take(i as int), target, opt_types(allowed)),
        decreases links.len() - i,
    {
        let (s, t, lt) = links[i];
        assert(links@.take(i + 1).drop_last() =~= links@.take(i as int));
        if t == target && allowed_fn(allowed, lt) {
            r.push((s, lt));
        }
        i = i + 1;
    }
    assert(links@.take(links@.len() as int) =~= links@);
    r
}

/// The link types that count as covering a requirement.
pub open spec fn is_covering_type(t: LinkType) -> bool {
    t == LinkType::DerivesFrom || t == LinkType::Satisfies || t == LinkType::Verifies
}

/// Some covering link has `id` as its target.
pub open spec fn has_covering_link(links: Seq<Edge>, id: u128) -> bool {
    exists|i: int| 0 <= i < links.len() && is_covering_type(links[i].2) && #[trigger] links[i].1 == id
}

/// The ids of the software requirements that no covering link traces into, in node order.
pub open spec fn uncovered_spec(nodes: Seq<TraceNode>, links: Seq<Edge>) -> Seq<u128>
    decreases nodes.len(),
{
    if nodes.len() == 0 {
        Seq::empty()
    } else {
        let rest = uncovered_spec(nodes.drop_last(), links);
        let n = nodes.last();
        if n.kind == TraceNodeKind::SoftwareRequirement && !has_covering_link(links, n.id) {
            rest.push(n.id)
        } else {
            rest
        }
    }
}

/// Coverage analysis: the software requirements with no derives_from /
/// satisfies / verifies link coming in.
pub fn uncovered(nodes: &[TraceNode], links: &[Edge]) -> (r: Vec<u128>)
    ensures
        r@ == uncovered_spec(nodes@, links@),
{
    // the targets of covering links
    let mut incoming: Vec<u128> = Vec::new();
    let mut i: usize = 0;
    while i < links.len()
        invariant
            i <= links@.len(),
            forall|x: u128|
                incoming@.contains(x) <==> (exists|j: int|
                    0 <= j < i && is_covering_type(links@[j].2) && #[trigger] links@[j].1 == x),
        decreases links.len() - i,
    {
        let (_s, t, lt) = links[i];
        let ghost old_in = incoming@;
        let covering = match lt {
            LinkType::DerivesFrom => true,
            LinkType::Satisfies => true,
            LinkType::Verifies => true,
            _ => false,
        };
        if covering {
            incoming.push(t);
        }
        assert forall|x: u128|
            incoming@.contains(x) <==> (exists|j: int|
                0 <= j < i + 1 && is_covering_type(links@[j].2) && #[trigger] links@[j].1 == x) by {
            if incoming@.contains(x) {
                let w = choose|w: int| 0 <= w < incoming@.len() && incoming@[w] == x;
                if w < old_in.len() {
                    assert(old_in[w] == x);
                    assert(old_in.contains(x));
                } else {
                    assert(links@[i as int].1 == x);
                }
            }
            if exists|j: int| 0 <= j < i + 1 && is_covering_type(links@[j].2) && #[trigger] links@[j].1 == x {
                let j = choose|j: int| 0 <= j < i + 1 && is_covering_type(links@[j].2) && #[trigger] links@[j].1 == x;
                if j < i {
                    assert(old_in.contains(x));
                    let w = choose|w: int| 0 <= w < old_in.len() && old_in[w] == x;
                    assert(incoming@[w] == x);
                } else {
                    assert(incoming@[incoming@.len() - 1] == x);
                }
            }
        }
        i = i + 1;
    }
    let mut r: Vec<u128> = Vec::new();
    let mut i: usize = 0;
    while i < nodes.len()
        invariant
            i <= nodes@.len(),
            forall|x: u128| incoming@.contains(x) <==> has_covering_link(links@, x),
            r@ == uncovered_spec(nodes@.take(i as int), links@),
        decreases nodes.len() - i,
    {
        assert(nodes@.take(i + 1).drop_last() =~= nodes@.take(i as int));
        let n = &nodes[i];
        if n.kind == TraceNodeKind::SoftwareRequirement && !vec_contains(&incoming, n.id) {
            r.push(n.id);
        }
        i = i + 1;
    }
    assert(nodes@.take(nodes@.len() as int) =~= nodes@);
    r
}

} // verus!
