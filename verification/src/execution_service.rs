//! The execution service: a template and an execution stage give a checklist
//! for a project. The checklist's structure is derived from the template's
//! nodes in document order; what the executor fills in is stored data.
use vstd::prelude::*;
use crate::document_model::TemplateNode;
use crate::document_order::ordered_spec;
use crate::document_service::{edges_in, nodes_in, template_of, DocumentService};
use crate::error::ServiceError;
use crate::execution_model::{ExecutionInstance, ExecutionItem, InstanceStatus, ItemStatus};
use crate::ids::now_micros;
use crate::json::{json_is_object, json_get};

verus! {

/// The instance with this id (the last one when several share it).
pub open spec fn instance_of(v: Seq<ExecutionInstance>, id: u128) -> Option<ExecutionInstance>
    decreases v.len(),
{
    if v.len() == 0 {
        None
    } else if v.last().id == id {
        Some(v.last())
    } else {
        instance_of(v.drop_last(), id)
    }
}

/// The instances of project `p`, in store order.
pub open spec fn instances_of(v: Seq<ExecutionInstance>, p: u128) -> Seq<ExecutionInstance>
    decreases v.len(),
{
    if v.len() == 0 {
        Seq::empty()
    } else if v.last().project_id == p {
        instances_of(v.drop_last(), p).push(v.last())
    } else {
        instances_of(v.drop_last(), p)
    }
}

/// The items of instance `i`, in store order.
pub open spec fn items_of(v: Seq<ExecutionItem>, i: u128) -> Seq<ExecutionItem>
    decreases v.len(),
{
    if v.len() == 0 {
        Seq::empty()
    } else if v.last().instance_id == i {
        items_of(v.drop_last(), i).push(v.last())
    } else {
        items_of(v.drop_last(), i)
    }
}

/// `added` is the checklist of instance `inst` for the template nodes `ordered`:
/// one pending item per node, in order, titled like the node, sort key = position.
pub open spec fn checklist(inst: u128, ordered: Seq<TemplateNode>, added: Seq<ExecutionItem>) -> bool {
    &&& added.len() == ordered.len()
    &&& forall|k: int|
        #![trigger added[k]]
        0 <= k < added.len() ==> {
            &&& added[k].instance_id == inst
            &&& added[k].template_node_id == ordered[k].id
            &&& added[k].title == ordered[k].title
            &&& added[k].status == ItemStatus::Pending
            &&& added[k].sort_key == k as i32
            &&& json_is_object(added[k].content)
            &&& forall|key: Seq<char>| #[trigger] json_get(added[k].content, key) is None
        }
}

pub struct ExecutionService {
    pub instances: Vec<ExecutionInstance>,
    pub items: Vec<ExecutionItem>,
}

impl ExecutionService {
    pub fn new() -> (s: ExecutionService)
        ensures
            s.instances@.len() == 0,
            s.items@.len() == 0,
    {
        ExecutionService { instances: Vec::new(), items: Vec::new() }
    }

    /// Derives an execution instance of template `template_id` for project
    /// `project_id`: a draft instance, and one pending checklist item per
    /// template node in document order. NotFound (`document_template_not_found`).
    pub fn create_instance(
        &mut self,
        docs: &DocumentService,
        project_id: u128,
        template_id: u128,
        stage: Option<String>,
    ) -> (r: Result<ExecutionInstance, ServiceError>)
        requires
            docs.wf(),
        ensures
            forall|q: u128|
                q != project_id ==> #[trigger] instances_of(final(self).instances@, q) == instances_of(
                    old(self).instances@,
                    q,
                ),
            match r {
                Ok(inst) => {
                    &&& template_of(docs.templates@, template_id) is Some
                    &&& inst.project_id == project_id
                    &&& inst.template_id == template_id
                    &&& inst.stage == stage
                    &&& inst.status == InstanceStatus::Draft
                    &&& final(self).instances@ == old(self).instances@.push(inst)
                    &&& exists|added: Seq<ExecutionItem>|
                        checklist(
                            inst.id,
                            ordered_spec(
                                nodes_in(docs.nodes@, template_id),
                                edges_in(docs.edges@, template_id),
                            ),
                            added,
                        ) && final(self).items@ == old(self).items@ + added
                },
                Err(e) => template_of(docs.templates@, template_id) is None && e is NotFound
                    && e.message() == "document_template_not_found"@ && final(self).instances@ == old(
                    self,
                ).instances@ && final(self).items@ == old(self).items@,
            },
    {
        if let Err(e) = docs.get_template(template_id) {
            return Err(e);
        }
        let instance = ExecutionInstance::new(project_id, template_id, stage);
        self.instances.push(instance.clone());
        let (ns, es) = docs.template_graph(template_id);
        proof {
            assert forall|i: int|
                0 <= i < es@.len() && crate::document_order::is_contains(#[trigger] es@[i]) implies crate::document_order::node_of(
                ns@,
                es@[i].target_node_id,
            ) is Some by {
                crate::document_service::lemma_node_of_iff(ns@, es@[i].target_node_id);
            }
        }
        let ordered = DocumentService::ordered_nodes(ns, es.as_slice());
        let ghost base = self.items@;
        let mut i: usize = 0;
        while i < ordered.len()
            invariant
                i <= ordered@.len(),
                self.instances@ == old(self).instances@.push(instance),
                base == old(self).items@,
                self.items@.len() == base.len() + i,
                self.items@.take(base.len() as int) == base,
                checklist(instance.id, ordered@.take(i as int), self.items@.skip(base.len() as int)),
            decreases ordered.len() - i,
        {
            let n = &ordered[i];
            let item = ExecutionItem::new(instance.id, n.id, n.title.clone(), i as i32);
            let ghost prev = self.items@;
            self.items.push(item);
            proof {
                assert(self.items@.take(base.len() as int) =~= prev.take(base.len() as int));
                let added = self.items@.skip(base.len() as int);
                assert(added =~= prev.skip(base.len() as int).push(item));
                assert forall|k: int| 0 <= k < i + 1 implies #[trigger] added[k].template_node_id
                    == ordered@.take(i + 1)[k].id && added[k].title == ordered@.take(i + 1)[k].title by {
                    if k < i {
                        assert(added[k] == prev.skip(base.len() as int)[k]);
                    }
                }
            }
            i = i + 1;
        }
        proof {
            assert(self.instances@.drop_last() =~= old(self).instances@);
            assert(ordered@.take(ordered@.len() as int) =~= ordered@);
            assert(self.items@ =~= base + self.items@.skip(base.len() as int));
            assert(checklist(instance.id, ordered@, self.items@.skip(base.len() as int)));
        }
        Ok(instance)
    }

    /// The instances of project `p`.
    pub fn list_instances(&self, project_id: u128) -> (r: Vec<ExecutionInstance>)
        ensures
            r@ == instances_of(self.instances@, project_id),
    {
        let mut r: Vec<ExecutionInstance> = Vec::new();
        let mut i: usize = 0;
        while i < self.instances.len()
            invariant
                i <= self.instances@.len(),
                r@ == instances_of(self.instances@.take(i as int), project_id),
            decreases self.instances.len() - i,
        {
            assert(self.instances@.take(i + 1).drop_last() =~= self.instances@.take(i as int));
            if self.instances[i].project_id == project_id {
                r.push(self.instances[i].clone());
            }
            i = i + 1;
        }
        assert(self.instances@.take(self.instances@.len() as int) =~= self.instances@);
        r
    }

    /// The instance `id`; NotFound (`execution_instance_not_found`).
    pub fn get_instance(&self, id: u128) -> (r: Result<ExecutionInstance, ServiceError>)
        ensures
            match r {
                Ok(x) => instance_of(self.instances@, id) == Some(x),
                Err(e) => instance_of(self.instances@, id) is None && e is NotFound && e.message()
                    == "execution_instance_not_found"@,
            },
    {
        let mut i: usize = self.instances.len();
        assert(self.instances@.take(i as int) =~= self.instances@);
        while i > 0
            invariant
                i <= self.instances@.len(),
                instance_of(self.instances@, id) == instance_of(self.instances@.take(i as int), id),
            decreases i,
        {
            assert(self.instances@.take(i as int).drop_last() =~= self.instances@.take(i - 1));
            if self.instances[i - 1].id == id {
                return Ok(self.instances[i - 1].clone());
            }
            i = i - 1;
        }
        Err(ServiceError::NotFound(String::from_str("execution_instance_not_found")))
    }

    fn items_by_instance(&self, instance_id: u128) -> (r: Vec<ExecutionItem>)
        ensures
            r@ == items_of(self.items@, instance_id),
    {
        let mut r: Vec<ExecutionItem> = Vec::new();
        let mut i: usize = 0;
        while i < self.items.len()
            invariant
                i <= self.items@.len(),
                r@ == items_of(self.items@.take(i as int), instance_id),
            decreases self.items.len() - i,
        {
            assert(self.items@.take(i + 1).drop_last() =~= self.items@.take(i as int));
            if self.items[i].instance_id == instance_id {
                r.push(self.items[i].clone());
            }
            i = i + 1;
        }
        assert(self.items@.take(self.items@.len() as int) =~= self.items@);
        r
    }

    /// The instance `id` with its checklist items; NotFound (`execution_instance_not_found`).
    pub fn get_instance_detail(&self, id: u128) -> (r: Result<
        (ExecutionInstance, Vec<ExecutionItem>),
        ServiceError,
    >)
        ensures
            match r {
                Ok((x, items)) => instance_of(self.instances@, id) == Some(x) && items@ == items_of(
                    self.items@,
                    id,
                ),
                Err(e) => instance_of(self.instances@, id) is None && e is NotFound && e.message()
                    == "execution_instance_not_found"@,
            },
    {
        let inst = match self.get_instance(id) {
            Ok(x) => x,
            Err(e) => {
                return Err(e);
            },
        };
        let items = self.items_by_instance(id);
        Ok((inst, items))
    }

    /// The checklist items of instance `instance_id`; NotFound
    /// (`execution_instance_not_found`).
    pub fn list_items(&self, instance_id: u128) -> (r: Result<Vec<ExecutionItem>, ServiceError>)
        ensures
            match r {
                Ok(items) => instance_of(self.instances@, instance_id) is Some && items@ == items_of(
                    self.items@,
                    instance_id,
                ),
                Err(e) => instance_of(self.instances@, instance_id) is None && e is NotFound
                    && e.message() == "execution_instance_not_found"@,
            },
    {
        if let Err(e) = self.get_instance(instance_id) {
            return Err(e);
        }
        Ok(self.items_by_instance(instance_id))
    }

    /// Sets the status and/or the stage of instance `id` and stamps the update
    /// time. NotFound (`execution_instance_not_found`).
    pub fn update_instance(
        &mut self,
        id: u128,
        status: Option<InstanceStatus>,
        stage: Option<Option<String>>,
    ) -> (r: Result<ExecutionInstance, ServiceError>)
        ensures
            final(self).items@ == old(self).items@,
            match r {
                Ok(x) => {
                    &&& instance_of(old(self).instances@, id) is Some
                    &&& x.id == id
                    &&& x.project_id == instance_of(old(self).instances@, id)->0.project_id
                    &&& x.template_id == instance_of(old(self).instances@, id)->0.template_id
                    &&& x.created_at == instance_of(old(self).instances@, id)->0.created_at
                    &&& x.status == match status {
                        Some(s) => s,
                        None => instance_of(old(self).instances@, id)->0.status,
                    }
                    &&& x.stage == match stage {
                        Some(s) => s,
                        None => instance_of(old(self).instances@, id)->0.stage,
                    }
                    &&& final(self).instances@.len() == old(self).instances@.len()
                    &&& forall|j: int|
                        0 <= j < old(self).instances@.len() ==> (#[trigger] final(self).instances@[j])
                            == if old(self).instances@[j].id == id {
                            x
                        } else {
                            old(self).instances@[j]
                        }
                },
                Err(e) => instance_of(old(self).instances@, id) is None && e is NotFound
                    && e.message() == "execution_instance_not_found"@ && final(self).instances@ == old(
                    self,
                ).instances@,
            },
    {
        let mut inst = match self.get_instance(id) {
            Ok(x) => x,
            Err(e) => {
                return Err(e);
            },
        };
        proof {
            lemma_instance_of_id(self.instances@, id);
        }
        if let Some(s) = status {
            inst.status = s;
        }
        if let Some(st) = stage {
            inst.stage = st;
        }
        inst.updated_at = now_micros();
        let ghost before = self.instances@;
        let mut j: usize = 0;
        while j < self.instances.len()
            invariant
                j <= self.instances@.len(),
                self.instances@.len() == before.len(),
                self.items@ == old(self).items@,
                forall|x: int|
                    0 <= x < before.len() ==> (#[trigger] self.instances@[x]) == if x < j
                        && before[x].id == id {
                        inst
                    } else {
                        before[x]
                    },
            decreases self.instances.len() - j,
        {
            if self.instances[j].id == id {
                self.instances.set(j, inst.clone());
            }
            j = j + 1;
        }
        Ok(inst)
    }

    /// Sets the status and/or the content of item `id` and stamps the update
    /// time. NotFound (`execution_item_not_found`).
    pub fn update_item(
        &mut self,
        id: u128,
        status: Option<ItemStatus>,
        content: Option<serde_json::Value>,
    ) -> (r: Result<ExecutionItem, ServiceError>)
        ensures
            final(self).instances@ == old(self).instances@,
            match r {
                Ok(x) => {
                    &&& exists|j: int|
                        0 <= j < old(self).items@.len() && (#[trigger] old(self).items@[j]).id == id
                            && x.instance_id == old(self).items@[j].instance_id
                            && x.template_node_id == old(self).items@[j].template_node_id
                            && x.title == old(self).items@[j].title
                            && x.sort_key == old(self).items@[j].sort_key
                            && x.status == (match status {
                            Some(s) => s,
                            None => old(self).items@[j].status,
                        }) && x.content == (match content {
                            Some(c) => c,
                            None => old(self).items@[j].content,
                        }) && final(self).items@ == old(self).items@.update(j, x)
                    &&& x.id == id
                },
                Err(e) => e is NotFound && e.message() == "execution_item_not_found"@
                    && final(self).items@ == old(self).items@ && forall|j: int|
                    0 <= j < old(self).items@.len() ==> (#[trigger] old(self).items@[j]).id != id,
            },
    {
        let mut j: usize = 0;
        while j < self.items.len()
            invariant
                self.items@ == old(self).items@,
                self.instances@ == old(self).instances@,
                j <= self.items@.len(),
                forall|x: int| 0 <= x < j ==> (#[trigger] self.items@[x]).id != id,
            ensures
                self.items@ == old(self).items@,
                self.instances@ == old(self).instances@,
                j <= self.items@.len(),
                j < self.items@.len() ==> self.items@[j as int].id == id,
                forall|x: int| 0 <= x < j ==> (#[trigger] self.items@[x]).id != id,
            decreases self.items.len() - j,
        {
            if self.items[j].id == id {
                break;
            }
            j = j + 1;
        }
        if j >= self.items.len() {
            return Err(ServiceError::NotFound(String::from_str("execution_item_not_found")));
        }
        let mut item = self.items[j].clone();
        if let Some(s) = status {
            item.status = s;
        }
        if let Some(c) = content {
            item.content = c;
        }
        item.updated_at = now_micros();
        self.items.set(j, item.clone());
        assert(old(self).items@[j as int].id == id);
        Ok(item)
    }
}

/// The instance found for an id has that id.
pub proof fn lemma_instance_of_id(v: Seq<ExecutionInstance>, id: u128)
    ensures
        instance_of(v, id) matches Some(x) ==> x.id == id,
    decreases v.len(),
{
    if v.len() > 0 {
        lemma_instance_of_id(v.drop_last(), id);
    }
}

/// The instances of other projects than `p`, in store order.
pub open spec fn instances_not_of(v: Seq<ExecutionInstance>, p: u128) -> Seq<ExecutionInstance>
    decreases v.len(),
{
    if v.len() == 0 {
        Seq::empty()
    } else if v.last().project_id != p {
        instances_not_of(v.drop_last(), p).push(v.last())
    } else {
        instances_not_of(v.drop_last(), p)
    }
}

/// Some instance of project `p` has this id.
pub open spec fn instance_of_project(v: Seq<ExecutionInstance>, p: u128, id: u128) -> bool {
    exists|j: int| 0 <= j < v.len() && #[trigger] v[j].id == id && v[j].project_id == p
}

/// The items whose instance is not one of project `p`'s, in store order.
pub open spec fn items_kept(items: Seq<ExecutionItem>, v: Seq<ExecutionInstance>, p: u128) -> Seq<ExecutionItem>
    decreases items.len(),
{
    if items.len() == 0 {
        Seq::empty()
    } else if !instance_of_project(v, p, items.last().instance_id) {
        items_kept(items.drop_last(), v, p).push(items.last())
    } else {
        items_kept(items.drop_last(), v, p)
    }
}

impl ExecutionService {
    /// Removes the instances of project `p` and their checklist items.
    pub fn remove_project(&mut self, p: u128)
        ensures
            final(self).instances@ == instances_not_of(old(self).instances@, p),
            final(self).items@ == items_kept(old(self).items@, old(self).instances@, p),
    {
        let ghost oi = self.instances@;
        let mut gone: Vec<u128> = Vec::new();
        let mut i: usize = 0;
        while i < self.instances.len()
            invariant
                i <= self.instances@.len(),
                self.instances@ == oi,
                forall|x: u128| gone@.contains(x) <==> exists|j: int|
                    0 <= j < i && #[trigger] oi[j].id == x && oi[j].project_id == p,
            decreases self.instances.len() - i,
        {
            let ghost gb = gone@;
            if self.instances[i].project_id == p {
                gone.push(self.instances[i].id);
            }
            proof {
                assert forall|x: u128| gone@.contains(x) <==> exists|j: int|
                    0 <= j < i + 1 && #[trigger] oi[j].id == x && oi[j].project_id == p by {
                    if gone@.contains(x) {
                        let w = choose|w: int| 0 <= w < gone@.len() && gone@[w] == x;
                        if w < gb.len() {
                            assert(gb[w] == x);
                            assert(gb.contains(x));
                        } else {
                            assert(oi[i as int].id == x);
                        }
                    }
                    if exists|j: int| 0 <= j < i + 1 && #[trigger] oi[j].id == x && oi[j].project_id == p {
                        let j = choose|j: int| 0 <= j < i + 1 && #[trigger] oi[j].id == x && oi[j].project_id == p;
                        if j < i {
                            assert(gb.contains(x));
                            let w = choose|w: int| 0 <= w < gb.len() && gb[w] == x;
                            assert(gone@[w] == x);
                        } else {
                            assert(gone@[gone@.len() - 1] == x);
                        }
                    }
                }
            }
            i = i + 1;
        }
        let ghost oitems = self.items@;
        let ghost mut k: int = 0;
        let mut i: usize = 0;
        assert(oitems.skip(0) =~= oitems);
        while i < self.items.len()
            invariant
                self.instances@ == oi,
                oi == old(self).instances@,
                oitems == old(self).items@,
                forall|x: u128| gone@.contains(x) <==> instance_of_project(oi, p, x),
                0 <= k <= oitems.len(),
                i == items_kept(oitems.take(k), oi, p).len(),
                self.items@ == items_kept(oitems.take(k), oi, p) + oitems.skip(k),
            decreases self.items@.len() - i,
        {
            assert(oitems.take(k + 1).drop_last() =~= oitems.take(k));
            assert(self.items@[i as int] == oitems[k]);
            if crate::graph::vec_contains(&gone, self.items[i].instance_id) {
                self.items.remove(i);
            } else {
                i = i + 1;
            }
            proof {
                k = k + 1;
            }
            assert(self.items@ =~= items_kept(oitems.take(k), oi, p) + oitems.skip(k));
        }
        proof {
            if k < oitems.len() {
                assert(self.items@.len() > i);
            }
            assert(oitems.take(k) =~= oitems);
        }
        let ghost mut k: int = 0;
        let mut i: usize = 0;
        assert(oi.skip(0) =~= oi);
        while i < self.instances.len()
            invariant
                oi == old(self).instances@,
                self.items@ == items_kept(oitems, oi, p),
                oitems == old(self).items@,
                0 <= k <= oi.len(),
                i == instances_not_of(oi.take(k), p).len(),
                self.instances@ == instances_not_of(oi.take(k), p) + oi.skip(k),
            decreases self.instances@.len() - i,
        {
            assert(oi.take(k + 1).drop_last() =~= oi.take(k));
            assert(self.instances@[i as int] == oi[k]);
            if self.instances[i].project_id == p {
                self.instances.remove(i);
            } else {
                i = i + 1;
            }
            proof {
                k = k + 1;
            }
            assert(self.instances@ =~= instances_not_of(oi.take(k), p) + oi.skip(k));
        }
        proof {
            if k < oi.len() {
                assert(self.instances@.len() > i);
            }
            assert(oi.take(k) =~= oi);
        }
    }
}

} // verus!
