//! Authoring on the trace graph: test items written by hand against
//! requirements, and frozen baselines.
use vstd::prelude::*;
use crate::error::ServiceError;
use crate::ids::{new_id, now_micros, now_nanos};
use crate::text::{is_blank, is_blank_seq, opt_view, trim, trim_seq};
use crate::trace_model::{LinkType, TraceBaseline, TraceLink, TraceNode, TraceNodeKind};
use crate::trace_service::{stage_max, trimmed_nonblank, TraceService};
use crate::trace_store::{
    baselines_of, foreign_links_apart, has_link_id, has_node_id, node_by_key, lemma_apart_step, link_upserted, node_in, other_baselines_kept,
    other_links_kept, other_nodes_kept,
};

verus! {

pub open spec fn hex_digit(d: nat) -> char {
    if d < 10 {
        (('0' as nat) + d) as char
    } else {
        (('a' as nat) + d - 10) as char
    }
}

/// Lower-case hexadecimal digits of `n`, without leading zeros (`{:x}`).
pub open spec fn hex_seq(n: nat) -> Seq<char>
    decreases n,
{
    if n < 16 {
        seq![hex_digit(n)]
    } else {
        hex_seq(n / 16).push(hex_digit(n % 16))
    }
}

/// `n` in lower-case hexadecimal (`format!("{n:x}")`).
pub fn hex_string(n: u128) -> (r: String)
    ensures
        r@ == hex_seq(n as nat),
    decreases n,
{
    let d = (n % 16) as u8;
    let c: char = if d < 10 {
        (48u8 + d) as char
    } else {
        (87u8 + d) as char
    };
    if n < 16 {
        let mut s = String::new();
        s.push(c);
        assert(s@ =~= seq![hex_digit(n as nat)]);
        s
    } else {
        let mut s = hex_string(n / 16);
        s.push(c);
        s
    }
}

/// The ids in order of first occurrence, repeats dropped.
pub open spec fn distinct_ids(ids: Seq<u128>) -> Seq<u128>
    decreases ids.len(),
{
    if ids.len() == 0 {
        Seq::empty()
    } else {
        let rest = distinct_ids(ids.drop_last());
        if rest.contains(ids.last()) {
            rest
        } else {
            rest.push(ids.last())
        }
    }
}

/// The first requirement id that fails its check, as `(is NotFound,
/// message)`: not a node of the project, or not a software requirement.
pub open spec fn requirement_problem(nodes: Seq<TraceNode>, p: u128, ids: Seq<u128>) -> Option<
    (bool, Seq<char>),
>
    decreases ids.len(),
{
    if ids.len() == 0 {
        None
    } else {
        match requirement_problem(nodes, p, ids.drop_last()) {
            Some(f) => Some(f),
            None => match node_in(nodes, p, ids.last()) {
                None => Some((true, "trace_node_not_found"@)),
                Some(n) => if n.kind == TraceNodeKind::SoftwareRequirement {
                    None
                } else {
                    Some((false, "node "@ + n.external_ref@ + " is not a software requirement"@))
                },
            },
        }
    }
}

/// `states` walks from `before` to `after`, upserting the links of `added` one by one.
pub open spec fn chain_states(
    before: Seq<TraceLink>,
    added: Seq<TraceLink>,
    states: Seq<Seq<TraceLink>>,
    after: Seq<TraceLink>,
) -> bool {
    &&& states.len() == added.len() + 1
    &&& states[0] == before
    &&& states.last() == after
    &&& forall|k: int|
        0 <= k < added.len() ==> link_upserted(states[k], #[trigger] added[k], states[k + 1])
}

/// `after` is `before` with the links of `added` upserted one after another.
pub open spec fn links_chain(before: Seq<TraceLink>, added: Seq<TraceLink>, after: Seq<TraceLink>) -> bool {
    exists|states: Seq<Seq<TraceLink>>| chain_states(before, added, states, after)
}

/// The links a new test item gets: `item -> requirement` (derives_from) in
/// project `p`, one per requirement, in order.
pub open spec fn item_links(item: u128, p: u128, reqs: Seq<u128>, added: Seq<TraceLink>) -> bool {
    &&& added.len() == reqs.len()
    &&& forall|k: int|
        0 <= k < reqs.len() ==> (#[trigger] added[k]).source_node_id == item
            && added[k].target_node_id == reqs[k] && added[k].link_type == LinkType::DerivesFrom
            && added[k].project_id == p
}

impl TraceService {
    /// An ASCII external reference for a hand-made node:
    /// `manual-<tag>-<clock nanoseconds in hex>`.
    pub fn gen_manual_ref(tag: &str) -> (r: String)
        ensures
            exists|t: u128| r@ == "manual-"@ + tag@ + "-"@ + hex_seq(t as nat),
    {
        let nanos = now_nanos();
        let mut r = String::from_str("manual-");
        r.append(tag);
        r.append("-");
        let h = hex_string(nanos);
        r.append(h.as_str());
        r
    }

    /// Writes a test item of project `p` that derives from the given
    /// requirements (repeats dropped, first occurrence order). Validation for
    /// a blank title (`title must not be empty`) or no requirement (`at least
    /// one requirement is required`); then the first requirement that is not a
    /// node of the project is NotFound (`trace_node_not_found`), the first that
    /// is not a software requirement is Validation (`node <ref> is not a
    /// software requirement`); nothing is written in those cases. The item is
    /// created with source `manual` and a generated `manual-ti-<hex>` reference
    /// at the end of the test item stage, then linked to each requirement.
    /// Only a collision fails past the checks: Conflict when the generated
    /// reference is already held (nothing written), a Repository error when
    /// the item's fresh id is already taken (nothing written) or when a link's
    /// fresh id is (the item and the links before it stay written).
    pub fn create_test_item(
        &mut self,
        project_id: u128,
        title: String,
        module: Option<String>,
        description: Option<String>,
        requirement_ids: Vec<u128>,
    ) -> (r: Result<TraceNode, ServiceError>)
        requires
            old(self).wf(),
            stage_max(old(self).store.nodes@, project_id, TraceNodeKind::TestItem) < i32::MAX,
        ensures
            other_nodes_kept(old(self).store, final(self).store, project_id),
            other_baselines_kept(old(self).store, final(self).store, project_id),
            foreign_links_apart(old(self).store.links@, final(self).store.nodes@, project_id)
                ==> other_links_kept(old(self).store, final(self).store, project_id),
            final(self).wf(),
            final(self).store.baselines@ == old(self).store.baselines@,
            match r {
                Ok(n) => {
                    &&& !is_blank_seq(title@)
                    &&& requirement_ids@.len() > 0
                    &&& requirement_problem(
                        old(self).store.nodes@,
                        project_id,
                        distinct_ids(requirement_ids@),
                    ) is None
                    &&& n.project_id == project_id
                    &&& n.kind == TraceNodeKind::TestItem
                    &&& n.external_source@ == "manual"@
                    &&& exists|t: u128| n.external_ref@ == "manual-ti-"@ + hex_seq(t as nat)
                    &&& n.title@ == trim_seq(title@)
                    &&& opt_view(n.module) == trimmed_nonblank(opt_view(module))
                    &&& n.description == description
                    &&& n.sort_key == stage_max(
                        old(self).store.nodes@,
                        project_id,
                        TraceNodeKind::TestItem,
                    ) + 1
                    &&& !has_node_id(old(self).store.nodes@, n.id)
                    &&& final(self).store.nodes@ == old(self).store.nodes@.push(n)
                    &&& exists|added: Seq<TraceLink>|
                        item_links(n.id, project_id, distinct_ids(requirement_ids@), added)
                            && links_chain(old(self).store.links@, added, final(self).store.links@)
                },
                Err(e) => if is_blank_seq(title@) {
                    e is Validation && e.message() == "title must not be empty"@
                        && final(self).store.nodes@ == old(self).store.nodes@
                        && final(self).store.links@ == old(self).store.links@
                } else if requirement_ids@.len() == 0 {
                    e is Validation && e.message() == "at least one requirement is required"@
                        && final(self).store.nodes@ == old(self).store.nodes@
                        && final(self).store.links@ == old(self).store.links@
                } else {
                    match requirement_problem(
                        old(self).store.nodes@,
                        project_id,
                        distinct_ids(requirement_ids@),
                    ) {
                        Some(f) => (if f.0 {
                            e is NotFound
                        } else {
                            e is Validation
                        }) && e.message() == f.1 && final(self).store.nodes@ == old(
                            self,
                        ).store.nodes@ && final(self).store.links@ == old(self).store.links@,
                        None => {
                            ||| e is Conflict && final(self).store.nodes@ == old(self).store.nodes@
                                && final(self).store.links@ == old(self).store.links@ && exists|t: u128|
                                #[trigger] node_by_key(
                                    old(self).store.nodes@,
                                    project_id,
                                    "manual"@,
                                    "manual-ti-"@ + hex_seq(t as nat),
                                ) is Some
                            ||| e is Repository && final(self).store.nodes@ == old(self).store.nodes@
                                && final(self).store.links@ == old(self).store.links@ && exists|id: u128|
                                #[trigger] has_node_id(old(self).store.nodes@, id)
                            ||| e is Repository && exists|n: TraceNode, added: Seq<TraceLink>, k: int|
                                #![trigger item_links(n.id, project_id, distinct_ids(requirement_ids@).take(k), added)]
                                0 <= k < distinct_ids(requirement_ids@).len() && n.project_id == project_id
                                    && n.kind == TraceNodeKind::TestItem && !has_node_id(old(self).store.nodes@, n.id)
                                    && final(self).store.nodes@ == old(self).store.nodes@.push(n) && item_links(
                                    n.id,
                                    project_id,
                                    distinct_ids(requirement_ids@).take(k),
                                    added,
                                ) && links_chain(old(self).store.links@, added, final(self).store.links@)
                                    && (exists|id: u128| #[trigger] has_link_id(final(self).store.links@, id))
                                    && !exists|x: int|
                                    0 <= x < final(self).store.links@.len()
                                        && #[trigger] final(self).store.links@[x].source_node_id == n.id
                                        && final(self).store.links@[x].target_node_id == distinct_ids(
                                        requirement_ids@,
                                    )[k] && final(self).store.links@[x].link_type == LinkType::DerivesFrom
                        },
                    }
                },
            },
    {
        if is_blank(title.as_str()) {
            return Err(ServiceError::Validation(String::from_str("title must not be empty")));
        }
        if requirement_ids.len() == 0 {
            return Err(
                ServiceError::Validation(String::from_str("at least one requirement is required")),
            );
        }
        let mut seen: Vec<u128> = Vec::new();
        let mut i: usize = 0;
        while i < requirement_ids.len()
            invariant
                i <= requirement_ids@.len(),
                seen@ == distinct_ids(requirement_ids@.take(i as int)),
            decreases requirement_ids.len() - i,
        {
            assert(requirement_ids@.take(i + 1).drop_last() =~= requirement_ids@.take(i as int));
            let rid = requirement_ids[i];
            if !crate::graph::vec_contains(&seen, rid) {
                seen.push(rid);
            }
            i = i + 1;
        }
        assert(requirement_ids@.take(requirement_ids@.len() as int) =~= requirement_ids@);
        let mut k: usize = 0;
        while k < seen.len()
            invariant
                self.wf(),
                self.store.nodes@ == old(self).store.nodes@,
                self.store.links@ == old(self).store.links@,
                self.store.baselines@ == old(self).store.baselines@,
                !is_blank_seq(title@),
                requirement_ids@.len() > 0,
                seen@ == distinct_ids(requirement_ids@),
                k <= seen@.len(),
                requirement_problem(self.store.nodes@, project_id, seen@.take(k as int)) is None,
            decreases seen.len() - k,
        {
            assert(seen@.take(k + 1).drop_last() =~= seen@.take(k as int));
            let n = match self.get_node(project_id, seen[k]) {
                Ok(n) => n,
                Err(e) => {
                    proof {
                        lemma_problem_sticks(self.store.nodes@, project_id, seen@, k + 1);
                    }
                    return Err(e);
                },
            };
            if n.kind != TraceNodeKind::SoftwareRequirement {
                let mut m = String::from_str("node ");
                m.append(n.external_ref.as_str());
                m.append(" is not a software requirement");
                proof {
                    lemma_problem_sticks(self.store.nodes@, project_id, seen@, k + 1);
                }
                return Err(ServiceError::Validation(m));
            }
            k = k + 1;
        }
        assert(seen@.take(seen@.len() as int) =~= seen@);
        let reference = Self::gen_manual_ref("ti");
        let ghost tt: u128 = choose|t: u128| reference@ == "manual-"@ + "ti"@ + "-"@ + hex_seq(t as nat);
        proof {
            reveal_strlit("ti");
            reveal_strlit("manual-");
            reveal_strlit("-");
            reveal_strlit("manual-ti-");
            let t = choose|t: u128| reference@ == "manual-"@ + "ti"@ + "-"@ + hex_seq(t as nat);
            assert(reference@ =~= "manual-ti-"@ + hex_seq(t as nat));
            lemma_hex_no_ws(t as nat);
            assert forall|i: int| 0 <= i < reference@.len() implies !crate::text::is_ws(
                #[trigger] reference@[i],
            ) by {
                if i >= 10 {
                    assert(reference@[i] == hex_seq(t as nat)[i - 10]);
                }
            }
            lemma_trim_no_ws(reference@);
            assert(forall|i: int| 0 <= i < "manual"@.len() ==> !crate::text::is_ws(
                #[trigger] "manual"@[i],
            )) by {
                reveal_strlit("manual");
            }
            lemma_trim_no_ws("manual"@);
            reveal_strlit("manual");
            assert(reference@.len() > 0);
        }
        let ghost nodes0 = self.store.nodes@;
        let ghost store0 = self.store;
        let node = match self.create_node(
            project_id,
            TraceNodeKind::TestItem,
            String::from_str("manual"),
            reference,
            module,
            title,
            description,
        ) {
            Ok(n) => n,
            Err(e) => {
                proof {
                    reveal_strlit("manual");
                    reveal_strlit("ti");
                    reveal_strlit("manual-");
                    reveal_strlit("-");
                    reveal_strlit("manual-ti-");
                    assert(reference@ =~= "manual-ti-"@ + hex_seq(tt as nat));
                    if e is Conflict {
                        assert(node_by_key(nodes0, project_id, "manual"@, "manual-ti-"@ + hex_seq(tt as nat))
                            is Some);
                    }
                }
                return Err(e);
            },
        };
        proof {
            reveal_strlit("manual");
            if foreign_links_apart(old(self).store.links@, self.store.nodes@, project_id) {
                assert(other_links_kept(old(self).store, self.store, project_id));
            }
        }
        let ghost links0 = self.store.links@;
        let ghost mut added: Seq<TraceLink> = Seq::empty();
        let ghost mut lstates: Seq<Seq<TraceLink>> = seq![self.store.links@];
        let mut k: usize = 0;
        while k < seen.len()
            invariant
                self.wf(),
                self.store.nodes@ == nodes0.push(node),
                self.store.baselines@ == old(self).store.baselines@,
                !has_node_id(nodes0, node.id),
                node.project_id == project_id,
                node.kind == TraceNodeKind::TestItem,
                requirement_problem(nodes0, project_id, seen@) is None,
                nodes0 == old(self).store.nodes@,
                !is_blank_seq(title@),
                requirement_ids@.len() > 0,
                seen@ == distinct_ids(requirement_ids@),
                k <= seen@.len(),
                item_links(node.id, project_id, seen@.take(k as int), added),
                chain_states(links0, added, lstates, self.store.links@),
                links0 == old(self).store.links@,
                other_nodes_kept(old(self).store, self.store, project_id),
                foreign_links_apart(links0, nodes0.push(node), project_id) ==> (foreign_links_apart(
                    self.store.links@,
                    nodes0.push(node),
                    project_id,
                ) && other_links_kept(old(self).store, self.store, project_id)),
            decreases seen.len() - k,
        {
            assert(seen@.take(k + 1).drop_last() =~= seen@.take(k as int));
            proof {
                lemma_problem_none(nodes0, project_id, seen@, k as int);
                lemma_node_id_of_in(nodes0, project_id, seen@[k as int]);
                assert(seen@[k as int] != node.id);
                assert(nodes0.push(node).drop_last() =~= nodes0);
                assert(node_in(nodes0.push(node), project_id, seen@[k as int]) == node_in(
                    nodes0,
                    project_id,
                    seen@[k as int],
                ));
            }
            let ghost prev_links = self.store.links@;
            let ghost prev_store = self.store;
            let link = match self.create_link(project_id, node.id, seen[k], LinkType::DerivesFrom) {
                Ok(l) => l,
                Err(e) => {
                    proof {
                        assert(node_in(nodes0.push(node), project_id, node.id) is Some);
                        assert(node_in(nodes0.push(node), project_id, seen@[k as int]) is Some);
                        assert(e is Repository);
                        assert(exists|id: u128| #[trigger] has_link_id(self.store.links@, id));
                        assert(distinct_ids(requirement_ids@)[k as int] == seen@[k as int]);
                        assert(links_chain(links0, added, self.store.links@));
                        assert(seen@.take(k as int) == distinct_ids(requirement_ids@).take(k as int));
                        assert(item_links(node.id, project_id, distinct_ids(requirement_ids@).take(k as int), added));
                        assert(!exists|x: int|
                            0 <= x < self.store.links@.len() && #[trigger] self.store.links@[x].source_node_id == node.id
                                && self.store.links@[x].target_node_id == distinct_ids(requirement_ids@)[k as int]
                                && self.store.links@[x].link_type == LinkType::DerivesFrom);
                        assert(other_nodes_kept(old(self).store, self.store, project_id));
                        if foreign_links_apart(links0, nodes0.push(node), project_id) {
                            assert(other_links_kept(old(self).store, self.store, project_id));
                        }
                    }
                    return Err(e);
                },
            };
            proof {
                if foreign_links_apart(links0, nodes0.push(node), project_id) {
                    lemma_apart_step(prev_links, link, self.store.links@, nodes0.push(node), project_id);
                    assert(other_links_kept(old(self).store, self.store, project_id));
                }
                assert(other_nodes_kept(old(self).store, self.store, project_id));
                let ghost prev_added = added;
                added = added.push(link);
                assert(added.drop_last() =~= prev_added);
                let ghost prev_states = lstates;
                lstates = lstates.push(self.store.links@);
                assert forall|x: int| 0 <= x < added.len() implies link_upserted(
                    lstates[x],
                    #[trigger] added[x],
                    lstates[x + 1],
                ) by {
                    if x < k {
                        assert(prev_states[x] == lstates[x]);
                        assert(prev_states[x + 1] == lstates[x + 1]);
                        assert(prev_added[x] == added[x]);
                    }
                }
                assert forall|x: int| 0 <= x < k + 1 implies (#[trigger] added[x]).source_node_id
                    == node.id && added[x].target_node_id == seen@.take(k + 1)[x]
                    && added[x].link_type == LinkType::DerivesFrom && added[x].project_id
                    == project_id by {
                    if x < k {
                        assert(added[x] == prev_added[x]);
                    }
                }
            }
            k = k + 1;
        }
        assert(seen@.take(seen@.len() as int) =~= seen@);
        assert(chain_states(links0, added, lstates, self.store.links@));
        Ok(node)
    }

    /// Freezes a snapshot of project `p` under a name. Validation (`baseline
    /// name must not be empty`) for a blank name; otherwise the baseline, with
    /// the trimmed name, a fresh id and the current time, is stored and given back.
    pub fn create_baseline(
        &mut self,
        project_id: u128,
        name: String,
        reason: Option<String>,
        snapshot_json: serde_json::Value,
    ) -> (r: Result<TraceBaseline, ServiceError>)
        requires
            old(self).wf(),
        ensures
            crate::trace_store::others_kept(old(self).store, final(self).store, project_id),
            final(self).wf(),
            final(self).store.nodes@ == old(self).store.nodes@,
            final(self).store.links@ == old(self).store.links@,
            match r {
                Ok(b) => {
                    &&& !is_blank_seq(name@)
                    &&& b.project_id == project_id
                    &&& b.name@ == trim_seq(name@)
                    &&& b.reason == reason
                    &&& b.snapshot_json == snapshot_json
                    &&& final(self).store.baselines@ == old(self).store.baselines@.push(b)
                },
                Err(e) => is_blank_seq(name@) && e is Validation && e.message()
                    == "baseline name must not be empty"@ && final(self).store.baselines@ == old(
                    self,
                ).store.baselines@,
            },
    {
        if is_blank(name.as_str()) {
            return Err(
                ServiceError::Validation(String::from_str("baseline name must not be empty")),
            );
        }
        let baseline = TraceBaseline {
            id: new_id(),
            project_id,
            name: trim(name.as_str()),
            reason,
            snapshot_json,
            created_at: now_micros(),
        };
        self.store.baselines.push(baseline.clone());
        proof {
            assert(self.store.baselines@.drop_last() =~= old(self).store.baselines@);
        }
        Ok(baseline)
    }
}

/// With no problem, every requirement is a software requirement node of the project.
pub proof fn lemma_problem_none(nodes: Seq<TraceNode>, p: u128, ids: Seq<u128>, k: int)
    requires
        0 <= k < ids.len(),
        requirement_problem(nodes, p, ids) is None,
    ensures
        node_in(nodes, p, ids[k]) is Some,
        node_in(nodes, p, ids[k])->0.kind == TraceNodeKind::SoftwareRequirement,
    decreases ids.len(),
{
    if k < ids.len() - 1 {
        lemma_problem_none(nodes, p, ids.drop_last(), k);
        assert(ids.drop_last()[k] == ids[k]);
    }
}

/// A node found by `node_in` carries that id.
pub proof fn lemma_node_id_of_in(nodes: Seq<TraceNode>, p: u128, id: u128)
    requires
        node_in(nodes, p, id) is Some,
    ensures
        has_node_id(nodes, id),
{
    crate::trace_service::lemma_node_in_index(nodes, p, id);
}

/// `str::trim` leaves a string with no whitespace as it is.
pub proof fn lemma_trim_no_ws(s: Seq<char>)
    requires
        forall|i: int| 0 <= i < s.len() ==> !crate::text::is_ws(#[trigger] s[i]),
    ensures
        trim_seq(s) == s,
{
    if s.len() > 0 {
        assert(!crate::text::is_ws(s[0]));
        assert(!crate::text::is_ws(s.last()));
    }
}

/// Hexadecimal digits are not whitespace.
pub proof fn lemma_hex_no_ws(n: nat)
    ensures
        forall|i: int| 0 <= i < hex_seq(n).len() ==> !crate::text::is_ws(#[trigger] hex_seq(n)[i]),
    decreases n,
{
    if n >= 16 {
        lemma_hex_no_ws(n / 16);
        assert forall|i: int| 0 <= i < hex_seq(n).len() implies !crate::text::is_ws(
            #[trigger] hex_seq(n)[i],
        ) by {
            if i < hex_seq(n).len() - 1 {
                assert(hex_seq(n)[i] == hex_seq(n / 16)[i]);
            }
        }
    }
}

/// Once a prefix of the requirements has a problem, the whole list has the same one.
pub proof fn lemma_problem_sticks(nodes: Seq<TraceNode>, p: u128, ids: Seq<u128>, k: int)
    requires
        0 <= k <= ids.len(),
        requirement_problem(nodes, p, ids.take(k)) is Some,
    ensures
        requirement_problem(nodes, p, ids) == requirement_problem(nodes, p, ids.take(k)),
    decreases ids.len() - k,
{
    if k < ids.len() {
        assert(ids.take(k + 1).drop_last() =~= ids.take(k));
        lemma_problem_sticks(nodes, p, ids, k + 1);
    } else {
        assert(ids.take(k) =~= ids);
    }
}

} // verus!
