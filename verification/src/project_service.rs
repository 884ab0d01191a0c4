//! Projects and their data. A project owns its trace graph, its execution
//! checklists and one set of data values; it is bound to (at most) one
//! scheme, which gives its data its structure. Changing the bound scheme
//! clears the project's values; deleting a project removes everything it owns.
use vstd::prelude::*;
use crate::error::ServiceError;
use crate::execution_service::{instances_not_of, items_kept, ExecutionService};
use crate::ids::{new_id, now_micros};
use crate::projectdata::{
    same_rows, normalize_write, normalized_rows, sort_rows, sort_rows_exec, table_cols, DataColumn, DataField,
    DataRow, DataTable, FieldDef, ProjectDataView, ProjectDataWrite, TableDef,
};
use crate::scheme_service::{scheme_of, schemes_view, SchemeFull, SchemeFullV, SchemeService};
use crate::text::{str_eq, trim, trim_seq};
use crate::trace_service::TraceService;
use crate::trace_store::{baselines_of, lemma_none_of, links_of, nodes_of};

verus! {

/// A project.
pub struct Project {
    pub id: u128,
    pub name: String,
    pub scheme_id: Option<u128>,
    pub created_at: i64,
    pub updated_at: i64,
}

impl Clone for Project {
    fn clone(&self) -> (r: Self)
        ensures
            r == *self,
    {
        Project {
            id: self.id,
            name: self.name.clone(),
            scheme_id: self.scheme_id,
            created_at: self.created_at,
            updated_at: self.updated_at,
        }
    }
}

impl Project {
    /// A new project with a fresh id and both timestamps set to now.
    pub fn with_scheme(name: String, scheme_id: Option<u128>) -> (p: Project)
        ensures
            p.name == name,
            p.scheme_id == scheme_id,
            p.created_at == p.updated_at,
    {
        let now = now_micros();
        Project { id: new_id(), name, scheme_id, created_at: now, updated_at: now }
    }
}

/// Some project is bound to scheme `sid`.
pub open spec fn scheme_bound(ps: Seq<Project>, sid: u128) -> bool {
    exists|i: int| 0 <= i < ps.len() && #[trigger] ps[i].scheme_id == Some(sid)
}

pub open spec fn project_of(ps: Seq<Project>, id: u128) -> Option<Project>
    decreases ps.len(),
{
    if ps.len() == 0 {
        None
    } else if ps.last().id == id {
        Some(ps.last())
    } else {
        project_of(ps.drop_last(), id)
    }
}

/// Some project other than those with id `skip` has this name.
pub open spec fn project_name_taken(ps: Seq<Project>, name: Seq<char>, skip: Option<u128>) -> bool {
    exists|i: int|
        0 <= i < ps.len() && #[trigger] ps[i].name@ == name && !(skip is Some && ps[i].id == skip->0)
}

/// A stored field value of a project.
pub struct FieldValue {
    pub project_id: u128,
    pub field_id: u128,
    pub value: String,
}

/// A stored table row of a project.
pub struct StoredRow {
    pub project_id: u128,
    pub table_id: u128,
    pub row: DataRow,
}

/// The value project `p` stored for field `f` (the first one), or empty.
pub open spec fn value_for(vs: Seq<FieldValue>, p: u128, f: u128) -> Seq<char>
    decreases vs.len(),
{
    if vs.len() == 0 {
        Seq::empty()
    } else if vs[0].project_id == p && vs[0].field_id == f {
        vs[0].value@
    } else {
        value_for(vs.drop_first(), p, f)
    }
}

/// The rows project `p` stored for table `t`, in store order.
pub open spec fn rows_for(rs: Seq<StoredRow>, p: u128, t: u128) -> Seq<DataRow>
    decreases rs.len(),
{
    if rs.len() == 0 {
        Seq::empty()
    } else if rs.last().project_id == p && rs.last().table_id == t {
        rows_for(rs.drop_last(), p, t).push(rs.last().row)
    } else {
        rows_for(rs.drop_last(), p, t)
    }
}

/// The data view of project `p` under scheme `def`: every scheme field with
/// the project's value (empty when none), every scheme table with its columns
/// and the project's rows sorted by row index.
pub open spec fn view_built(
    vs: Seq<FieldValue>,
    rs: Seq<StoredRow>,
    p: u128,
    def: SchemeFullV,
    v: ProjectDataView,
) -> bool {
    &&& v.project_id == p
    &&& v.scheme_id == Some(def.scheme.id)
    &&& v.fields@.len() == def.fields.len()
    &&& forall|i: int|
        #![trigger v.fields@[i]]
        0 <= i < def.fields.len() ==> {
            let f = def.fields[i];
            &&& v.fields@[i].id == f.id
            &&& v.fields@[i].doc_kind == f.doc_kind
            &&& v.fields@[i].field_key == f.field_key
            &&& v.fields@[i].label == f.label
            &&& v.fields@[i].value@ == value_for(vs, p, f.id)
        }
    &&& v.tables@.len() == def.tables.len()
    &&& forall|i: int|
        #![trigger v.tables@[i]]
        0 <= i < def.tables.len() ==> {
            let t = def.tables[i];
            &&& v.tables@[i].id == t.table.id
            &&& v.tables@[i].table_key == t.table.table_key
            &&& v.tables@[i].label == t.table.label
            &&& v.tables@[i].columns@.len() == t.columns.len()
            &&& forall|j: int|
                #![trigger v.tables@[i].columns@[j]]
                0 <= j < t.columns.len() ==> v.tables@[i].columns@[j].id == t.columns[j].id
                    && v.tables@[i].columns@[j].column_key == t.columns[j].column_key
                    && v.tables@[i].columns@[j].label == t.columns[j].label
            &&& same_rows(v.tables@[i].rows@, sort_rows(rows_for(rs, p, t.table.id)))
        }
}

/// The data view of a project without a scheme: no fields, no tables.
pub open spec fn empty_view(p: u128, v: ProjectDataView) -> bool {
    v.project_id == p && v.scheme_id is None && v.fields@.len() == 0 && v.tables@.len() == 0
}

/// The values of other projects than `p`, in store order.
pub open spec fn values_not_of(vs: Seq<FieldValue>, p: u128) -> Seq<FieldValue>
    decreases vs.len(),
{
    if vs.len() == 0 {
        Seq::empty()
    } else {
        let rest = values_not_of(vs.drop_last(), p);
        if vs.last().project_id == p {
            rest
        } else {
            rest.push(vs.last())
        }
    }
}

/// The table rows of other projects than `p`, in store order.
pub open spec fn rows_not_of(rs: Seq<StoredRow>, p: u128) -> Seq<StoredRow>
    decreases rs.len(),
{
    if rs.len() == 0 {
        Seq::empty()
    } else {
        let rest = rows_not_of(rs.drop_last(), p);
        if rs.last().project_id == p {
            rest
        } else {
            rest.push(rs.last())
        }
    }
}

/// The field values a write stores for project `p`, in order.
pub open spec fn written_values(p: u128, ws: Seq<crate::projectdata::FieldValueWrite>) -> Seq<(u128, u128, Seq<char>)> {
    ws.map_values(|w: crate::projectdata::FieldValueWrite| (p, w.field_id, w.value@))
}

pub open spec fn values_view(vs: Seq<FieldValue>) -> Seq<(u128, u128, Seq<char>)> {
    vs.map_values(|v: FieldValue| (v.project_id, v.field_id, v.value@))
}

/// The rows a write stores for project `p`: each table's rows in order, tables in order.
pub open spec fn written_rows(p: u128, ts: Seq<crate::projectdata::TableRowsWrite>) -> Seq<
    (u128, u128, i32, Seq<(String, String)>),
>
    decreases ts.len(),
{
    if ts.len() == 0 {
        Seq::empty()
    } else {
        written_rows(p, ts.drop_last()) + ts.last().rows@.map_values(
            |r: DataRow| (p, ts.last().table_id, r.row_index, r.cells@),
        )
    }
}

/// The projects.
pub struct ProjectService {
    pub projects: Vec<Project>,
}

impl ProjectService {
    pub fn new() -> (s: ProjectService)
        ensures
            s.projects@.len() == 0,
    {
        ProjectService { projects: Vec::new() }
    }

    pub fn list(&self) -> (r: Vec<Project>)
        ensures
            r@ == self.projects@,
    {
        let mut r: Vec<Project> = Vec::new();
        let mut i: usize = 0;
        while i < self.projects.len()
            invariant
                i <= self.projects@.len(),
                r@ == self.projects@.take(i as int),
            decreases self.projects.len() - i,
        {
            r.push(self.projects[i].clone());
            i = i + 1;
            assert(r@ =~= self.projects@.take(i as int));
        }
        assert(self.projects@.take(self.projects@.len() as int) =~= self.projects@);
        r
    }

    /// The project `id`; NotFound (`project_not_found`).
    pub fn get(&self, id: u128) -> (r: Result<Project, ServiceError>)
        ensures
            match r {
                Ok(p) => project_of(self.projects@, id) == Some(p),
                Err(e) => project_of(self.projects@, id) is None && e is NotFound && e.message()
                    == "project_not_found"@,
            },
    {
        let mut i: usize = self.projects.len();
        assert(self.projects@.take(i as int) =~= self.projects@);
        while i > 0
            invariant
                i <= self.projects@.len(),
                project_of(self.projects@, id) == project_of(self.projects@.take(i as int), id),
            decreases i,
        {
            assert(self.projects@.take(i as int).drop_last() =~= self.projects@.take(i - 1));
            if self.projects[i - 1].id == id {
                return Ok(self.projects[i - 1].clone());
            }
            i = i - 1;
        }
        Err(ServiceError::NotFound(String::from_str("project_not_found")))
    }

    /// Whether some project is bound to scheme `sid`.
    pub fn is_scheme_bound(&self, sid: u128) -> (r: bool)
        ensures
            r == scheme_bound(self.projects@, sid),
    {
        let mut i: usize = 0;
        while i < self.projects.len()
            invariant
                i <= self.projects@.len(),
                forall|x: int| 0 <= x < i ==> (#[trigger] self.projects@[x]).scheme_id != Some(sid),
            decreases self.projects.len() - i,
        {
            if self.projects[i].scheme_id == Some(sid) {
                return true;
            }
            i = i + 1;
        }
        false
    }

    fn name_taken(&self, name: &String, skip: Option<u128>) -> (r: bool)
        ensures
            r == project_name_taken(self.projects@, name@, skip),
    {
        let mut i: usize = 0;
        while i < self.projects.len()
            invariant
                i <= self.projects@.len(),
                forall|x: int|
                    0 <= x < i ==> !((#[trigger] self.projects@[x]).name@ == name@ && !(skip is Some
                        && self.projects@[x].id == skip->0)),
            decreases self.projects.len() - i,
        {
            let other = match skip {
                Some(s) => self.projects[i].id == s,
                None => false,
            };
            if !other && str_eq(self.projects[i].name.as_str(), name.as_str()) {
                return true;
            }
            i = i + 1;
        }
        false
    }

    /// Creates a project with the trimmed name, optionally bound to a scheme.
    /// Validation (`project name must not be empty`); NotFound
    /// (`scheme_not_found`) for an unknown scheme; Conflict (`project name
    /// already exists: <name>`).
    pub fn create(&mut self, name: String, scheme_id: Option<u128>, schemes: &SchemeService) -> (r:
        Result<Project, ServiceError>)
        ensures
            match r {
                Ok(p) => {
                    &&& trim_seq(name@).len() > 0
                    &&& (scheme_id matches Some(sid) ==> scheme_of(schemes_view(schemes.schemes@), sid) is Some)
                    &&& !project_name_taken(old(self).projects@, trim_seq(name@), None)
                    &&& p.name@ == trim_seq(name@)
                    &&& p.scheme_id == scheme_id
                    &&& final(self).projects@ == old(self).projects@.push(p)
                },
                Err(e) => final(self).projects@ == old(self).projects@ && if trim_seq(name@).len() == 0 {
                    e is Validation && e.message() == "project name must not be empty"@
                } else if scheme_id is Some && scheme_of(schemes_view(schemes.schemes@), scheme_id->0) is None {
                    e is NotFound && e.message() == "scheme_not_found"@
                } else {
                    project_name_taken(old(self).projects@, trim_seq(name@), None) && e is Conflict
                        && e.message() == "project name already exists: "@ + trim_seq(name@)
                },
            },
    {
        let name = trim(name.as_str());
        if name.as_str().is_empty() {
            return Err(ServiceError::Validation(String::from_str("project name must not be empty")));
        }
        if let Some(sid) = scheme_id {
            if let Err(e) = schemes.get(sid) {
                return Err(e);
            }
        }
        if self.name_taken(&name, None) {
            let mut m = String::from_str("project name already exists: ");
            m.append(name.as_str());
            return Err(ServiceError::Conflict(m));
        }
        let project = Project::with_scheme(name, scheme_id);
        self.projects.push(project.clone());
        Ok(project)
    }

    /// Renames project `id` (trimmed). Validation (`project name must not be
    /// empty`); NotFound (`project_not_found`); Conflict (`project name already
    /// exists: <name>`) when another project has the name.
    pub fn rename(&mut self, id: u128, name: String) -> (r: Result<Project, ServiceError>)
        ensures
            match r {
                Ok(p) => {
                    &&& trim_seq(name@).len() > 0
                    &&& project_of(old(self).projects@, id) is Some
                    &&& !project_name_taken(old(self).projects@, trim_seq(name@), Some(id))
                    &&& p.id == id
                    &&& p.name@ == trim_seq(name@)
                    &&& p.scheme_id == project_of(old(self).projects@, id)->0.scheme_id
                    &&& final(self).projects@.len() == old(self).projects@.len()
                    &&& forall|j: int|
                        #![trigger final(self).projects@[j]]
                        0 <= j < old(self).projects@.len() ==> {
                            let a = old(self).projects@[j];
                            let b = final(self).projects@[j];
                            &&& b.id == a.id
                            &&& b.scheme_id == a.scheme_id
                            &&& (a.id != id ==> b == a)
                            &&& (a.id == id ==> b.name@ == trim_seq(name@))
                        }
                },
                Err(e) => final(self).projects@ == old(self).projects@ && if trim_seq(name@).len() == 0 {
                    e is Validation && e.message() == "project name must not be empty"@
                } else if project_of(old(self).projects@, id) is None {
                    e is NotFound && e.message() == "project_not_found"@
                } else {
                    project_name_taken(old(self).projects@, trim_seq(name@), Some(id)) && e is Conflict
                        && e.message() == "project name already exists: "@ + trim_seq(name@)
                },
            },
    {
        let name = trim(name.as_str());
        if name.as_str().is_empty() {
            return Err(ServiceError::Validation(String::from_str("project name must not be empty")));
        }
        if let Err(e) = self.get(id) {
            return Err(e);
        }
        if self.name_taken(&name, Some(id)) {
            let mut m = String::from_str("project name already exists: ");
            m.append(name.as_str());
            return Err(ServiceError::Conflict(m));
        }
        let now = now_micros();
        let ghost before = self.projects@;
        let mut j: usize = 0;
        while j < self.projects.len()
            invariant
                j <= self.projects@.len(),
                self.projects@.len() == before.len(),
                forall|x: int|
                    0 <= x < before.len() ==> (#[trigger] self.projects@[x]).id == before[x].id
                        && self.projects@[x].scheme_id == before[x].scheme_id && (before[x].id != id
                        ==> self.projects@[x] == before[x]) && (x < j && before[x].id == id
                        ==> self.projects@[x].name@ == name@) && (x >= j ==> self.projects@[x]
                        == before[x]),
            decreases self.projects.len() - j,
        {
            if self.projects[j].id == id {
                let mut p = self.projects[j].clone();
                p.name = name.clone();
                p.updated_at = now;
                self.projects.set(j, p);
            }
            j = j + 1;
        }
        proof {
            lemma_project_of_renamed(before, self.projects@, id, name@);
        }
        self.get(id)
    }

    /// Binds project `id` to scheme `scheme_id`, or unbinds it (`None`).
    /// NotFound (`scheme_not_found`) for an unknown scheme, NotFound
    /// (`project_not_found`) for an unknown project. Binding the scheme it
    /// already has changes nothing; binding another one first clears the
    /// project's data values and rows.
    pub fn bind_scheme(
        &mut self,
        id: u128,
        scheme_id: Option<u128>,
        schemes: &SchemeService,
        data: &mut ProjectDataService,
    ) -> (r: Result<Project, ServiceError>)
        ensures
            match r {
                Ok(p) => {
                    &&& (scheme_id matches Some(sid) ==> scheme_of(schemes_view(schemes.schemes@), sid) is Some)
                    &&& project_of(old(self).projects@, id) is Some
                    &&& p.id == id
                    &&& p.scheme_id == scheme_id
                    &&& p.name == project_of(old(self).projects@, id)->0.name
                    &&& if project_of(old(self).projects@, id)->0.scheme_id == scheme_id {
                        &&& final(self).projects@ == old(self).projects@
                        &&& final(data).values@ == old(data).values@
                        &&& final(data).rows@ == old(data).rows@
                    } else {
                        &&& final(data).values@ == values_not_of(old(data).values@, id)
                        &&& final(data).rows@ == rows_not_of(old(data).rows@, id)
                        &&& final(self).projects@.len() == old(self).projects@.len()
                        &&& forall|j: int|
                            #![trigger final(self).projects@[j]]
                            0 <= j < old(self).projects@.len() ==> {
                                let a = old(self).projects@[j];
                                let b = final(self).projects@[j];
                                &&& b.id == a.id
                                &&& b.name == a.name
                                &&& (a.id != id ==> b == a)
                                &&& (a.id == id ==> b.scheme_id == scheme_id)
                            }
                    }
                },
                Err(e) => {
                    &&& final(self).projects@ == old(self).projects@
                    &&& final(data).values@ == old(data).values@
                    &&& final(data).rows@ == old(data).rows@
                    &&& if scheme_id is Some && scheme_of(schemes_view(schemes.schemes@), scheme_id->0) is None {
                        e is NotFound && e.message() == "scheme_not_found"@
                    } else {
                        project_of(old(self).projects@, id) is None && e is NotFound && e.message()
                            == "project_not_found"@
                    }
                },
            },
    {
        if let Some(sid) = scheme_id {
            if let Err(e) = schemes.get(sid) {
                return Err(e);
            }
        }
        let current = match self.get(id) {
            Ok(p) => p,
            Err(e) => {
                return Err(e);
            },
        };
        if current.scheme_id == scheme_id {
            proof {
                lemma_project_of_id(self.projects@, id);
            }
            return Ok(current);
        }
        data.clear_project(id);
        let now = now_micros();
        let ghost before = self.projects@;
        let mut j: usize = 0;
        while j < self.projects.len()
            invariant
                j <= self.projects@.len(),
                self.projects@.len() == before.len(),
                forall|x: int|
                    0 <= x < before.len() ==> (#[trigger] self.projects@[x]).id == before[x].id
                        && self.projects@[x].name == before[x].name && (before[x].id != id
                        ==> self.projects@[x] == before[x]) && (x < j && before[x].id == id
                        ==> self.projects@[x].scheme_id == scheme_id) && (x >= j ==> self.projects@[x]
                        == before[x]),
            decreases self.projects.len() - j,
        {
            if self.projects[j].id == id {
                let mut p = self.projects[j].clone();
                p.scheme_id = scheme_id;
                p.updated_at = now;
                self.projects.set(j, p);
            }
            j = j + 1;
        }
        proof {
            lemma_project_of_rebound(before, self.projects@, id, scheme_id);
        }
        self.get(id)
    }

    /// Deletes project `id` together with everything it owns: its data
    /// values and rows, its trace nodes, links and baselines, and its
    /// execution instances with their items. NotFound (`project_not_found`)
    /// leaves everything as it was.
    pub fn delete(
        &mut self,
        id: u128,
        data: &mut ProjectDataService,
        trace: &mut TraceService,
        exec: &mut ExecutionService,
    ) -> (r: Result<(), ServiceError>)
        requires
            old(trace).store.wf(),
        ensures
            final(trace).store.wf(),
            match r {
                Ok(()) => {
                    &&& project_of(old(self).projects@, id) is Some
                    &&& final(self).projects@ == projects_without(old(self).projects@, id)
                    &&& project_of(final(self).projects@, id) is None
                    &&& final(data).values@ == values_not_of(old(data).values@, id)
                    &&& final(data).rows@ == rows_not_of(old(data).rows@, id)
                    &&& nodes_of(final(trace).store.nodes@, id).len() == 0
                    &&& links_of(final(trace).store.links@, id).len() == 0
                    &&& baselines_of(final(trace).store.baselines@, id).len() == 0
                    &&& forall|q: u128| q != id ==> #[trigger] nodes_of(final(trace).store.nodes@, q)
                        == nodes_of(old(trace).store.nodes@, q)
                    &&& forall|q: u128| q != id ==> #[trigger] links_of(final(trace).store.links@, q)
                        == links_of(old(trace).store.links@, q)
                    &&& forall|q: u128| q != id ==> #[trigger] baselines_of(final(trace).store.baselines@, q)
                        == baselines_of(old(trace).store.baselines@, q)
                    &&& final(exec).instances@ == instances_not_of(old(exec).instances@, id)
                    &&& final(exec).items@ == items_kept(old(exec).items@, old(exec).instances@, id)
                },
                Err(e) => {
                    &&& project_of(old(self).projects@, id) is None
                    &&& e is NotFound
                    &&& e.message() == "project_not_found"@
                    &&& final(self).projects@ == old(self).projects@
                    &&& final(data).values@ == old(data).values@
                    &&& final(data).rows@ == old(data).rows@
                    &&& final(trace).store == old(trace).store
                    &&& final(exec).instances@ == old(exec).instances@
                    &&& final(exec).items@ == old(exec).items@
                },
            },
    {
        if let Err(e) = self.get(id) {
            return Err(e);
        }
        let ghost op = self.projects@;
        let ghost mut k: int = 0;
        let mut i: usize = 0;
        assert(op.skip(0) =~= op);
        while i < self.projects.len()
            invariant
                0 <= k <= op.len(),
                i == projects_without(op.take(k), id).len(),
                self.projects@ == projects_without(op.take(k), id) + op.skip(k),
            decreases self.projects@.len() - i,
        {
            assert(op.take(k + 1).drop_last() =~= op.take(k));
            assert(self.projects@[i as int] == op[k]);
            if self.projects[i].id == id {
                self.projects.remove(i);
            } else {
                i = i + 1;
            }
            proof {
                k = k + 1;
            }
            assert(self.projects@ =~= projects_without(op.take(k), id) + op.skip(k));
        }
        proof {
            if k < op.len() {
                assert(self.projects@.len() > i);
            }
            assert(op.take(k) =~= op);
            lemma_project_of_without(op, id);
        }
        data.clear_project(id);
        trace.store.remove_project(id);
        proof {
            lemma_none_of(trace.store.nodes@, trace.store.links@, trace.store.baselines@, id);
        }
        exec.remove_project(id);
        Ok(())
    }
}

/// The projects whose id is not `id`, in their order.
pub open spec fn projects_without(ps: Seq<Project>, id: u128) -> Seq<Project>
    decreases ps.len(),
{
    if ps.len() == 0 {
        Seq::empty()
    } else if ps.last().id == id {
        projects_without(ps.drop_last(), id)
    } else {
        projects_without(ps.drop_last(), id).push(ps.last())
    }
}

/// After a rebinding that keeps every id and name and sets the scheme of the
/// projects with id `id`, the project found for `id` has the new scheme and
/// the old name.
pub proof fn lemma_project_of_rebound(a: Seq<Project>, b: Seq<Project>, id: u128, sid: Option<u128>)
    requires
        a.len() == b.len(),
        forall|x: int|
            0 <= x < a.len() ==> (#[trigger] b[x]).id == a[x].id && b[x].name == a[x].name
                && (a[x].id == id ==> b[x].scheme_id == sid),
    ensures
        project_of(a, id) is Some <==> project_of(b, id) is Some,
        project_of(b, id) matches Some(q) ==> q.id == id && q.scheme_id == sid && q.name
            == project_of(a, id)->0.name,
    decreases a.len(),
{
    if a.len() > 0 {
        assert(b[b.len() - 1].id == a[a.len() - 1].id);
        lemma_project_of_rebound(a.drop_last(), b.drop_last(), id, sid);
    }
}

/// With the projects of id `id` taken out, none is found for `id`.
pub proof fn lemma_project_of_without(ps: Seq<Project>, id: u128)
    ensures
        project_of(projects_without(ps, id), id) is None,
        forall|x: int| 0 <= x < projects_without(ps, id).len() ==> (#[trigger] projects_without(ps, id)[x]).id != id,
    decreases ps.len(),
{
    if ps.len() > 0 {
        lemma_project_of_without(ps.drop_last(), id);
    }
    lemma_project_of_absent(projects_without(ps, id), id);
}

/// No project is found for an id that none has.
pub proof fn lemma_project_of_absent(ps: Seq<Project>, id: u128)
    requires
        forall|x: int| 0 <= x < ps.len() ==> (#[trigger] ps[x]).id != id,
    ensures
        project_of(ps, id) is None,
    decreases ps.len(),
{
    if ps.len() > 0 {
        assert(ps.last() == ps[ps.len() - 1]);
        lemma_project_of_absent(ps.drop_last(), id);
    }
}

/// The project found for `id` has that id.
pub proof fn lemma_project_of_id(ps: Seq<Project>, id: u128)
    ensures
        project_of(ps, id) matches Some(q) ==> q.id == id,
    decreases ps.len(),
{
    if ps.len() > 0 {
        lemma_project_of_id(ps.drop_last(), id);
    }
}

/// After a rename that keeps every id and scheme and renames the projects
/// with id `id`, the project found for `id` has the new name and the old scheme.
pub proof fn lemma_project_of_renamed(a: Seq<Project>, b: Seq<Project>, id: u128, name: Seq<char>)
    requires
        a.len() == b.len(),
        forall|x: int|
            0 <= x < a.len() ==> (#[trigger] b[x]).id == a[x].id && b[x].scheme_id == a[x].scheme_id
                && (a[x].id == id ==> b[x].name@ == name),
    ensures
        project_of(a, id) is Some <==> project_of(b, id) is Some,
        project_of(b, id) matches Some(q) ==> q.id == id && q.name@ == name && q.scheme_id
            == project_of(a, id)->0.scheme_id,
    decreases a.len(),
{
    if a.len() > 0 {
        assert(b[b.len() - 1].id == a[a.len() - 1].id);
        lemma_project_of_renamed(a.drop_last(), b.drop_last(), id, name);
    }
}

/// The rows a write stores for project `p`: each table's rows in order, tables in order.
pub open spec fn stored_rows(p: u128, ts: Seq<crate::projectdata::TableRowsWrite>) -> Seq<StoredRow>
    decreases ts.len(),
{
    if ts.len() == 0 {
        Seq::empty()
    } else {
        stored_rows(p, ts.drop_last()) + ts.last().rows@.map_values(
            |r: DataRow| StoredRow { project_id: p, table_id: ts.last().table_id, row: r },
        )
    }
}

/// The field ids of a scheme, as the checks of a write see them.
pub open spec fn def_fields(def: SchemeFullV) -> Seq<FieldDef> {
    def.fields.map_values(|f: crate::scheme_service::SchemeField| FieldDef { id: f.id })
}

/// The column keys of the first table of the scheme with id `id`.
pub open spec fn def_table_cols(tables: Seq<crate::scheme_service::TableDefV>, id: u128) -> Option<
    Seq<Seq<char>>,
>
    decreases tables.len(),
{
    if tables.len() == 0 {
        None
    } else if tables[0].table.id == id {
        Some(tables[0].columns.map_values(|c: crate::scheme_service::SchemeTableColumn| c.column_key@))
    } else {
        def_table_cols(tables.drop_first(), id)
    }
}

/// The first written table whose id is not a table of the scheme.
pub open spec fn def_foreign_table(
    ws: Seq<crate::projectdata::TableRowsWrite>,
    tables: Seq<crate::scheme_service::TableDefV>,
) -> Option<u128>
    decreases ws.len(),
{
    if ws.len() == 0 {
        None
    } else if def_table_cols(tables, ws[0].table_id) is None {
        Some(ws[0].table_id)
    } else {
        def_foreign_table(ws.drop_first(), tables)
    }
}

/// Table defs that mirror the scheme's tables.
pub open spec fn mirrors(tdefs: Seq<TableDef>, tables: Seq<crate::scheme_service::TableDefV>) -> bool {
    &&& tdefs.len() == tables.len()
    &&& forall|i: int|
        #![trigger tdefs[i]]
        0 <= i < tdefs.len() ==> tdefs[i].id == tables[i].table.id && crate::text::strs_view(
            tdefs[i].column_keys@,
        ) == tables[i].columns.map_values(|c: crate::scheme_service::SchemeTableColumn| c.column_key@)
}

pub proof fn lemma_mirror_cols(tdefs: Seq<TableDef>, tables: Seq<crate::scheme_service::TableDefV>, id: u128)
    requires
        mirrors(tdefs, tables),
    ensures
        table_cols(tdefs, id) == def_table_cols(tables, id),
    decreases tdefs.len(),
{
    if tdefs.len() > 0 {
        assert(mirrors(tdefs.drop_first(), tables.drop_first())) by {
            assert forall|i: int| 0 <= i < tdefs.drop_first().len() implies #[trigger] tdefs.drop_first()[i].id
                == tables.drop_first()[i].table.id && crate::text::strs_view(tdefs.drop_first()[i].column_keys@)
                == tables.drop_first()[i].columns.map_values(
                |c: crate::scheme_service::SchemeTableColumn| c.column_key@,
            ) by {
                assert(tdefs.drop_first()[i] == tdefs[i + 1]);
                assert(tables.drop_first()[i] == tables[i + 1]);
            }
        }
        lemma_mirror_cols(tdefs.drop_first(), tables.drop_first(), id);
        assert(tdefs[0].id == tables[0].table.id);
    }
}

pub proof fn lemma_mirror_foreign(
    ws: Seq<crate::projectdata::TableRowsWrite>,
    tdefs: Seq<TableDef>,
    tables: Seq<crate::scheme_service::TableDefV>,
)
    requires
        mirrors(tdefs, tables),
    ensures
        crate::projectdata::first_foreign_table(ws, tdefs) == def_foreign_table(ws, tables),
    decreases ws.len(),
{
    if ws.len() > 0 {
        lemma_mirror_cols(tdefs, tables, ws[0].table_id);
        lemma_mirror_foreign(ws.drop_first(), tdefs, tables);
    }
}

fn clone_cells(c: &Vec<(String, String)>) -> (r: Vec<(String, String)>)
    ensures
        r@ == c@,
{
    let mut r: Vec<(String, String)> = Vec::new();
    let mut i: usize = 0;
    while i < c.len()
        invariant
            i <= c@.len(),
            r@ == c@.take(i as int),
        decreases c.len() - i,
    {
        let (k, v) = &c[i];
        r.push((k.clone(), v.clone()));
        i = i + 1;
        assert(r@ =~= c@.take(i as int));
    }
    assert(c@.take(c@.len() as int) =~= c@);
    r
}

/// The data values of all projects.
pub struct ProjectDataService {
    pub values: Vec<FieldValue>,
    pub rows: Vec<StoredRow>,
}

impl ProjectDataService {
    pub fn new() -> (s: ProjectDataService)
        ensures
            s.values@.len() == 0,
            s.rows@.len() == 0,
    {
        ProjectDataService { values: Vec::new(), rows: Vec::new() }
    }

    fn value_of(&self, p: u128, f: u128) -> (r: String)
        ensures
            r@ == value_for(self.values@, p, f),
    {
        let mut i: usize = 0;
        assert(self.values@.skip(0) =~= self.values@);
        while i < self.values.len()
            invariant
                i <= self.values@.len(),
                value_for(self.values@, p, f) == value_for(self.values@.skip(i as int), p, f),
            decreases self.values.len() - i,
        {
            assert(self.values@.skip(i as int)[0] == self.values@[i as int]);
            assert(self.values@.skip(i as int).drop_first() =~= self.values@.skip(i + 1));
            if self.values[i].project_id == p && self.values[i].field_id == f {
                return self.values[i].value.clone();
            }
            i = i + 1;
        }
        String::new()
    }

    fn rows_of(&self, p: u128, t: u128) -> (r: Vec<DataRow>)
        ensures
            same_rows(r@, rows_for(self.rows@, p, t)),
    {
        let mut r: Vec<DataRow> = Vec::new();
        let mut i: usize = 0;
        while i < self.rows.len()
            invariant
                i <= self.rows@.len(),
                same_rows(r@, rows_for(self.rows@.take(i as int), p, t)),
            decreases self.rows.len() - i,
        {
            assert(self.rows@.take(i + 1).drop_last() =~= self.rows@.take(i as int));
            let s = &self.rows[i];
            if s.project_id == p && s.table_id == t {
                let ghost before = r@;
                r.push(DataRow { row_index: s.row.row_index, cells: clone_cells(&s.row.cells) });
                assert forall|x: int| 0 <= x < r@.len() implies #[trigger] r@[x].row_index == rows_for(
                    self.rows@.take(i + 1),
                    p,
                    t,
                )[x].row_index && r@[x].cells@ == rows_for(self.rows@.take(i + 1), p, t)[x].cells@ by {
                    if x < before.len() {
                        assert(r@[x] == before[x]);
                    }
                }
            }
            i = i + 1;
        }
        assert(self.rows@.take(self.rows@.len() as int) =~= self.rows@);
        r
    }

    /// The data view of project `p` under the scheme `def`.
    pub fn build_view(&self, p: u128, def: &SchemeFull) -> (v: ProjectDataView)
        ensures
            view_built(self.values@, self.rows@, p, def@, v),
    {
        let mut fields: Vec<DataField> = Vec::new();
        let mut i: usize = 0;
        while i < def.fields.len()
            invariant
                i <= def.fields@.len(),
                fields@.len() == i,
                forall|x: int|
                    #![trigger fields@[x]]
                    0 <= x < i ==> {
                        let f = def@.fields[x];
                        &&& fields@[x].id == f.id
                        &&& fields@[x].doc_kind == f.doc_kind
                        &&& fields@[x].field_key == f.field_key
                        &&& fields@[x].label == f.label
                        &&& fields@[x].value@ == value_for(self.values@, p, f.id)
                    },
            decreases def.fields.len() - i,
        {
            let f = &def.fields[i];
            fields.push(
                DataField {
                    id: f.id,
                    doc_kind: f.doc_kind.clone(),
                    field_key: f.field_key.clone(),
                    label: f.label.clone(),
                    value: self.value_of(p, f.id),
                },
            );
            i = i + 1;
        }
        let mut tables: Vec<DataTable> = Vec::new();
        let mut i: usize = 0;
        while i < def.tables.len()
            invariant
                i <= def.tables@.len(),
                tables@.len() == i,
                forall|x: int|
                    #![trigger tables@[x]]
                    0 <= x < i ==> {
                        let t = def@.tables[x];
                        &&& tables@[x].id == t.table.id
                        &&& tables@[x].table_key == t.table.table_key
                        &&& tables@[x].label == t.table.label
                        &&& tables@[x].columns@.len() == t.columns.len()
                        &&& forall|j: int|
                            #![trigger tables@[x].columns@[j]]
                            0 <= j < t.columns.len() ==> tables@[x].columns@[j].id == t.columns[j].id
                                && tables@[x].columns@[j].column_key == t.columns[j].column_key
                                && tables@[x].columns@[j].label == t.columns[j].label
                        &&& same_rows(tables@[x].rows@, sort_rows(rows_for(self.rows@, p, t.table.id)))
                    },
            decreases def.tables.len() - i,
        {
            let t = &def.tables[i];
            assert(def@.tables[i as int] == t@);
            let mut columns: Vec<DataColumn> = Vec::new();
            let mut j: usize = 0;
            while j < t.columns.len()
                invariant
                    j <= t.columns@.len(),
                    columns@.len() == j,
                    forall|y: int|
                        #![trigger columns@[y]]
                        0 <= y < j ==> columns@[y].id == t.columns@[y].id && columns@[y].column_key
                            == t.columns@[y].column_key && columns@[y].label == t.columns@[y].label,
                decreases t.columns.len() - j,
            {
                let c = &t.columns[j];
                columns.push(DataColumn { id: c.id, column_key: c.column_key.clone(), label: c.label.clone() });
                j = j + 1;
            }
            let collected = self.rows_of(p, t.table.id);
            let sorted = sort_rows_exec(&collected);
            proof {
                crate::projectdata::lemma_sort_rows_same(collected@, rows_for(self.rows@, p, t.table.id));
                crate::projectdata::lemma_sort_rows_len(collected@);
            }
            tables.push(
                DataTable {
                    id: t.table.id,
                    table_key: t.table.table_key.clone(),
                    label: t.table.label.clone(),
                    columns,
                    rows: sorted,
                },
            );
            i = i + 1;
        }
        ProjectDataView { project_id: p, scheme_id: Some(def.scheme.id), fields, tables }
    }

    /// The data view of project `p`: NotFound (`project_not_found`); a project
    /// without a scheme has an empty view; otherwise every field and table of
    /// its scheme with the project's values.
    pub fn view(&self, project_id: u128, projects: &ProjectService, schemes: &SchemeService) -> (r:
        Result<ProjectDataView, ServiceError>)
        ensures
            match r {
                Ok(v) => project_of(projects.projects@, project_id) is Some && match project_of(
                    projects.projects@,
                    project_id,
                )->0.scheme_id {
                    None => empty_view(project_id, v),
                    Some(sid) => match scheme_of(schemes_view(schemes.schemes@), sid) {
                        Some(def) => view_built(self.values@, self.rows@, project_id, def, v),
                        None => v.project_id == project_id && v.scheme_id == Some(sid) && v.fields@.len()
                            == 0 && v.tables@.len() == 0,
                    },
                },
                Err(e) => project_of(projects.projects@, project_id) is None && e is NotFound
                    && e.message() == "project_not_found"@,
            },
    {
        let project = match projects.get(project_id) {
            Ok(p) => p,
            Err(e) => {
                return Err(e);
            },
        };
        match project.scheme_id {
            None => Ok(
                ProjectDataView {
                    project_id,
                    scheme_id: None,
                    fields: Vec::new(),
                    tables: Vec::new(),
                },
            ),
            Some(sid) => match schemes.get(sid) {
                Ok(def) => Ok(self.build_view(project_id, &def)),
                Err(_) => Ok(
                    ProjectDataView {
                        project_id,
                        scheme_id: Some(sid),
                        fields: Vec::new(),
                        tables: Vec::new(),
                    },
                ),
            },
        }
    }

    /// Replaces the whole data of project `p` and gives back its new view.
    /// NotFound (`project_not_found`); Validation (`project has no scheme
    /// bound; pick a scheme first`); NotFound (`scheme_not_found`); then the
    /// write is checked and normalized against the scheme (see
    /// `normalize_write`). The project's old values and rows are dropped; the
    /// written values and the normalized rows are stored.
    pub fn replace(
        &mut self,
        project_id: u128,
        write: ProjectDataWrite,
        projects: &ProjectService,
        schemes: &SchemeService,
    ) -> (r: Result<ProjectDataView, ServiceError>)
        ensures
            match r {
                Ok(v) => {
                    let proj = project_of(projects.projects@, project_id)->0;
                    let def = scheme_of(schemes_view(schemes.schemes@), proj.scheme_id->0)->0;
                    &&& project_of(projects.projects@, project_id) is Some
                    &&& proj.scheme_id is Some
                    &&& scheme_of(schemes_view(schemes.schemes@), proj.scheme_id->0) is Some
                    &&& crate::projectdata::first_foreign_field(write.fields@, def_fields(def)) is None
                    &&& def_foreign_table(write.tables@, def.tables) is None
                    &&& values_view(final(self).values@) == values_view(values_not_of(old(self).values@, project_id))
                        + written_values(project_id, write.fields@)
                    &&& exists|ts: Seq<crate::projectdata::TableRowsWrite>|
                        #![trigger stored_rows(project_id, ts)]
                        ts.len() == write.tables@.len() && (forall|i: int|
                            #![trigger ts[i]]
                            0 <= i < ts.len() ==> ts[i].table_id == write.tables@[i].table_id
                                && normalized_rows(
                                write.tables@[i].rows@,
                                def_table_cols(def.tables, write.tables@[i].table_id)->0,
                                ts[i].rows@,
                            )) && final(self).rows@ == rows_not_of(old(self).rows@, project_id)
                            + stored_rows(project_id, ts)
                    &&& view_built(final(self).values@, final(self).rows@, project_id, def, v)
                },
                Err(e) => final(self).values@ == old(self).values@ && final(self).rows@ == old(
                    self,
                ).rows@ && if project_of(projects.projects@, project_id) is None {
                    e is NotFound && e.message() == "project_not_found"@
                } else if project_of(projects.projects@, project_id)->0.scheme_id is None {
                    e is Validation && e.message()
                        == "project has no scheme bound; pick a scheme first"@
                } else if scheme_of(
                    schemes_view(schemes.schemes@),
                    project_of(projects.projects@, project_id)->0.scheme_id->0,
                ) is None {
                    e is NotFound && e.message() == "scheme_not_found"@
                } else {
                    let def = scheme_of(
                        schemes_view(schemes.schemes@),
                        project_of(projects.projects@, project_id)->0.scheme_id->0,
                    )->0;
                    e is Validation && match crate::projectdata::first_foreign_field(
                        write.fields@,
                        def_fields(def),
                    ) {
                        Some(id) => e.message() == "field "@ + crate::projectdata::uuid_text(id)
                            + " does not belong to the project scheme"@,
                        None => match def_foreign_table(write.tables@, def.tables) {
                            Some(id) => e.message() == "table "@ + crate::projectdata::uuid_text(id)
                                + " does not belong to the project scheme"@,
                            None => false,
                        },
                    }
                },
            },
    {
        let project = match projects.get(project_id) {
            Ok(p) => p,
            Err(e) => {
                return Err(e);
            },
        };
        let sid = match project.scheme_id {
            Some(s) => s,
            None => {
                return Err(
                    ServiceError::Validation(
                        String::from_str("project has no scheme bound; pick a scheme first"),
                    ),
                );
            },
        };
        let def = match schemes.get(sid) {
            Ok(d) => d,
            Err(e) => {
                return Err(e);
            },
        };
        let mut fdefs: Vec<FieldDef> = Vec::new();
        let mut i: usize = 0;
        while i < def.fields.len()
            invariant
                i <= def.fields@.len(),
                fdefs@ == def_fields(def@).take(i as int),
            decreases def.fields.len() - i,
        {
            fdefs.push(FieldDef { id: def.fields[i].id });
            i = i + 1;
            assert(fdefs@ =~= def_fields(def@).take(i as int));
        }
        assert(def_fields(def@).take(def.fields@.len() as int) =~= def_fields(def@));
        let mut tdefs: Vec<TableDef> = Vec::new();
        let mut i: usize = 0;
        while i < def.tables.len()
            invariant
                i <= def.tables@.len(),
                mirrors(tdefs@, def@.tables.take(i as int)),
            decreases def.tables.len() - i,
        {
            let t = &def.tables[i];
            assert(def@.tables[i as int] == t@);
            let mut keys: Vec<String> = Vec::new();
            let mut j: usize = 0;
            while j < t.columns.len()
                invariant
                    j <= t.columns@.len(),
                    crate::text::strs_view(keys@) == t.columns@.take(j as int).map_values(
                        |c: crate::scheme_service::SchemeTableColumn| c.column_key@,
                    ),
                decreases t.columns.len() - j,
            {
                let ghost kb = keys@;
                keys.push(t.columns[j].column_key.clone());
                assert(crate::text::strs_view(keys@) =~= crate::text::strs_view(kb).push(
                    t.columns@[j as int].column_key@,
                ));
                assert(t.columns@.take(j + 1).map_values(
                    |c: crate::scheme_service::SchemeTableColumn| c.column_key@,
                ) =~= t.columns@.take(j as int).map_values(
                    |c: crate::scheme_service::SchemeTableColumn| c.column_key@,
                ).push(t.columns@[j as int].column_key@));
                j = j + 1;
            }
            assert(t.columns@.take(t.columns@.len() as int) =~= t.columns@);
            let ghost before = tdefs@;
            tdefs.push(TableDef { id: t.table.id, column_keys: keys });
            proof {
                assert forall|x: int| 0 <= x < tdefs@.len() implies #[trigger] tdefs@[x].id == def@.tables.take(
                    i + 1,
                )[x].table.id && crate::text::strs_view(tdefs@[x].column_keys@) == def@.tables.take(
                    i + 1,
                )[x].columns.map_values(|c: crate::scheme_service::SchemeTableColumn| c.column_key@) by {
                    if x < i {
                        assert(tdefs@[x] == before[x]);
                        assert(def@.tables.take(i + 1)[x] == def@.tables.take(i as int)[x]);
                    }
                }
            }
            i = i + 1;
        }
        assert(def@.tables.take(def.tables@.len() as int) =~= def@.tables);
        proof {
            lemma_mirror_foreign(write.tables@, tdefs@, def@.tables);
        }
        let ghost wv = write;
        let w = match normalize_write(&fdefs, &tdefs, write) {
            Ok(w) => w,
            Err(e) => {
                return Err(e);
            },
        };
        proof {
            assert forall|i: int| 0 <= i < wv.tables@.len() implies table_cols(tdefs@, #[trigger] wv.tables@[i].table_id)
                == def_table_cols(def@.tables, wv.tables@[i].table_id) by {
                lemma_mirror_cols(tdefs@, def@.tables, wv.tables@[i].table_id);
            }
        }
        self.clear_project(project_id);
        let ghost base_rows = self.rows@;
        let ghost base_values = self.values@;
        let ProjectDataWrite { fields, tables } = w;
        let mut i: usize = 0;
        while i < fields.len()
            invariant
                i <= fields@.len(),
                self.rows@ == base_rows,
                values_view(self.values@) == values_view(base_values) + written_values(
                    project_id,
                    fields@.take(i as int),
                ),
            decreases fields.len() - i,
        {
            let f = &fields[i];
            let ghost vb = self.values@;
            let nv = FieldValue { project_id, field_id: f.field_id, value: f.value.clone() };
            self.values.push(nv);
            assert(values_view(self.values@) =~= values_view(vb).push((project_id, f.field_id, f.value@)));
            assert(written_values(project_id, fields@.take(i + 1)) =~= written_values(
                project_id,
                fields@.take(i as int),
            ).push((project_id, f.field_id, f.value@)));
            i = i + 1;
        }
        assert(fields@.take(fields@.len() as int) =~= fields@);
        let ghost all_tables = tables@;
        let mut tables = tables;
        let n = tables.len();
        let mut k: usize = 0;
        while k < n
            invariant
                n == all_tables.len(),
                k <= all_tables.len(),
                tables@ == all_tables.skip(k as int),
                values_view(self.values@) == values_view(base_values) + written_values(project_id, fields@),
                self.rows@ == base_rows + stored_rows(project_id, all_tables.take(k as int)),
            decreases all_tables.len() - k,
        {
            let t = tables.remove(0);
            assert(t == all_tables[k as int]);
            let tid = t.table_id;
            let ghost trows = t.rows@;
            let mut rows = t.rows;
            let m = rows.len();
            let ghost start = self.rows@;
            let mut j: usize = 0;
            while j < m
                invariant
                    m == trows.len(),
                    j <= trows.len(),
                    values_view(self.values@) == values_view(base_values) + written_values(
                        project_id,
                        fields@,
                    ),
                    rows@ == trows.skip(j as int),
                    self.rows@ == start + trows.take(j as int).map_values(
                        |r: DataRow| StoredRow { project_id, table_id: tid, row: r },
                    ),
                decreases trows.len() - j,
            {
                let r = rows.remove(0);
                assert(r == trows[j as int]);
                self.rows.push(StoredRow { project_id, table_id: tid, row: r });
                j = j + 1;
                assert(rows@ =~= trows.skip(j as int));
                assert(self.rows@ =~= start + trows.take(j as int).map_values(
                    |r: DataRow| StoredRow { project_id, table_id: tid, row: r },
                ));
            }
            assert(trows.take(trows.len() as int) =~= trows);
            k = k + 1;
            assert(all_tables.take(k as int).drop_last() =~= all_tables.take(k - 1));
            assert(tables@ =~= all_tables.skip(k as int));
            assert(self.rows@ =~= base_rows + stored_rows(project_id, all_tables.take(k as int)));
        }
        assert(all_tables.take(all_tables.len() as int) =~= all_tables);
        Ok(self.build_view(project_id, &def))
    }

    /// Drops every value and row of project `p`.
    pub fn clear_project(&mut self, p: u128)
        ensures
            final(self).values@ == values_not_of(old(self).values@, p),
            final(self).rows@ == rows_not_of(old(self).rows@, p),
    {
        let ghost ov = self.values@;
        let ghost mut k: int = 0;
        let mut i: usize = 0;
        assert(ov.skip(0) =~= ov);
        while i < self.values.len()
            invariant
                ov == old(self).values@,
                self.rows@ == old(self).rows@,
                0 <= k <= ov.len(),
                i == values_not_of(ov.take(k), p).len(),
                self.values@ == values_not_of(ov.take(k), p) + ov.skip(k),
            decreases self.values@.len() - i,
        {
            assert(ov.take(k + 1).drop_last() =~= ov.take(k));
            assert(self.values@[i as int] == ov[k]);
            if self.values[i].project_id == p {
                self.values.remove(i);
            } else {
                i = i + 1;
            }
            proof {
                k = k + 1;
            }
            assert(self.values@ =~= values_not_of(ov.take(k), p) + ov.skip(k));
        }
        proof {
            if k < ov.len() {
                assert(self.values@.len() > i);
            }
            assert(ov.take(k) =~= ov);
        }
        let ghost orows = self.rows@;
        let ghost mut k: int = 0;
        let mut i: usize = 0;
        assert(orows.skip(0) =~= orows);
        while i < self.rows.len()
            invariant
                orows == old(self).rows@,
                self.values@ == values_not_of(old(self).values@, p),
                0 <= k <= orows.len(),
                i == rows_not_of(orows.take(k), p).len(),
                self.rows@ == rows_not_of(orows.take(k), p) + orows.skip(k),
            decreases self.rows@.len() - i,
        {
            assert(orows.take(k + 1).drop_last() =~= orows.take(k));
            assert(self.rows@[i as int] == orows[k]);
            if self.rows[i].project_id == p {
                self.rows.remove(i);
            } else {
                i = i + 1;
            }
            proof {
                k = k + 1;
            }
            assert(self.rows@ =~= rows_not_of(orows.take(k), p) + orows.skip(k));
        }
        proof {
            if k < orows.len() {
                assert(self.rows@.len() > i);
            }
            assert(orows.take(k) =~= orows);
        }
    }
}

} // verus!
