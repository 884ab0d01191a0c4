//! The scheme service: schemes with their fields, tables and columns. A
//! whole replacement upserts by natural key and keeps the ids of what stays,
//! so the values a project filled in for them remain attached; the sort keys
//! follow the order of the definition.
use vstd::prelude::*;
use crate::error::ServiceError;
use crate::ids::{new_id, now_micros};
use crate::scheme::{
    normalize, normalize_spec, ColumnSpecV, FieldSpecV, SchemeColumnSpec, SchemeFieldSpec,
    SchemeSpec, SchemeSpecV, SchemeTableSpec, TableSpecV,
};
use crate::text::str_eq;

verus! {

/// A scheme (its header row).
pub struct Scheme {
    pub id: u128,
    pub name: String,
    pub description: String,
    pub created_at: i64,
    pub updated_at: i64,
}

/// A scalar field of a scheme; `doc_kind` `project` = shared by the whole project.
pub struct SchemeField {
    pub id: u128,
    pub scheme_id: u128,
    pub doc_kind: String,
    pub field_key: String,
    pub label: String,
    pub sort_key: i32,
    pub created_at: i64,
    pub updated_at: i64,
}

pub struct SchemeTable {
    pub id: u128,
    pub scheme_id: u128,
    pub table_key: String,
    pub label: String,
    pub sort_key: i32,
    pub created_at: i64,
    pub updated_at: i64,
}

pub struct SchemeTableColumn {
    pub id: u128,
    pub table_id: u128,
    pub column_key: String,
    pub label: String,
    pub sort_key: i32,
    pub created_at: i64,
    pub updated_at: i64,
}

/// A table with its columns, in column order.
pub struct SchemeTableDef {
    pub table: SchemeTable,
    pub columns: Vec<SchemeTableColumn>,
}

/// A whole scheme: header, fields and tables, each in definition order.
pub struct SchemeFull {
    pub scheme: Scheme,
    pub fields: Vec<SchemeField>,
    pub tables: Vec<SchemeTableDef>,
}

/// A table with its columns, as a value.
pub struct TableDefV {
    pub table: SchemeTable,
    pub columns: Seq<SchemeTableColumn>,
}

/// A whole scheme, as a value.
pub struct SchemeFullV {
    pub scheme: Scheme,
    pub fields: Seq<SchemeField>,
    pub tables: Seq<TableDefV>,
}

impl View for SchemeTableDef {
    type V = TableDefV;

    open spec fn view(&self) -> TableDefV {
        TableDefV { table: self.table, columns: self.columns@ }
    }
}

impl View for SchemeFull {
    type V = SchemeFullV;

    open spec fn view(&self) -> SchemeFullV {
        SchemeFullV {
            scheme: self.scheme,
            fields: self.fields@,
            tables: self.tables@.map_values(|t: SchemeTableDef| t@),
        }
    }
}

pub open spec fn schemes_view(v: Seq<SchemeFull>) -> Seq<SchemeFullV> {
    v.map_values(|f: SchemeFull| f@)
}

/// The old field with this natural key, when there is one.
pub open spec fn field_match(fields: Seq<SchemeField>, dk: Seq<char>, key: Seq<char>) -> Option<SchemeField>
    decreases fields.len(),
{
    if fields.len() == 0 {
        None
    } else if fields.last().doc_kind@ == dk && fields.last().field_key@ == key {
        Some(fields.last())
    } else {
        field_match(fields.drop_last(), dk, key)
    }
}

pub open spec fn table_match(tables: Seq<TableDefV>, key: Seq<char>) -> Option<TableDefV>
    decreases tables.len(),
{
    if tables.len() == 0 {
        None
    } else if tables.last().table.table_key@ == key {
        Some(tables.last())
    } else {
        table_match(tables.drop_last(), key)
    }
}

pub open spec fn column_match(cols: Seq<SchemeTableColumn>, key: Seq<char>) -> Option<SchemeTableColumn>
    decreases cols.len(),
{
    if cols.len() == 0 {
        None
    } else if cols.last().column_key@ == key {
        Some(cols.last())
    } else {
        column_match(cols.drop_last(), key)
    }
}

/// The `i`-th field written for definition `f` in scheme `sid`: an old
/// field with the same `(doc_kind, field_key)` keeps its id and creation time.
pub open spec fn field_built(old: Seq<SchemeField>, sid: u128, f: FieldSpecV, i: int, out: SchemeField) -> bool {
    &&& out.scheme_id == sid
    &&& out.doc_kind@ == f.doc_kind
    &&& out.field_key@ == f.field_key
    &&& out.label@ == f.label
    &&& out.sort_key == i as i32
    &&& match field_match(old, f.doc_kind, f.field_key) {
        Some(o) => out.id == o.id && out.created_at == o.created_at,
        None => true,
    }
}

pub open spec fn column_built(
    old: Seq<SchemeTableColumn>,
    tid: u128,
    c: ColumnSpecV,
    j: int,
    out: SchemeTableColumn,
) -> bool {
    &&& out.table_id == tid
    &&& out.column_key@ == c.column_key
    &&& out.label@ == c.label
    &&& out.sort_key == j as i32
    &&& match column_match(old, c.column_key) {
        Some(o) => out.id == o.id && out.created_at == o.created_at,
        None => true,
    }
}

/// The `i`-th table written for definition `t`: an old table with the same
/// key keeps its id and creation time, and its columns are matched by key.
pub open spec fn table_built(old: Seq<TableDefV>, sid: u128, t: TableSpecV, i: int, out: TableDefV) -> bool {
    let old_cols = match table_match(old, t.table_key) {
        Some(o) => o.columns,
        None => Seq::empty(),
    };
    &&& out.table.scheme_id == sid
    &&& out.table.table_key@ == t.table_key
    &&& out.table.label@ == t.label
    &&& out.table.sort_key == i as i32
    &&& match table_match(old, t.table_key) {
        Some(o) => out.table.id == o.table.id && out.table.created_at == o.table.created_at,
        None => true,
    }
    &&& out.columns.len() == t.columns.len()
    &&& forall|j: int|
        #![trigger out.columns[j]]
        0 <= j < t.columns.len() ==> column_built(old_cols, out.table.id, t.columns[j], j, out.columns[j])
}

/// `out` is scheme `sid` written from the normalized definition `s` over the
/// old fields and tables (empty for a new scheme).
pub open spec fn scheme_built(
    old_fields: Seq<SchemeField>,
    old_tables: Seq<TableDefV>,
    sid: u128,
    s: SchemeSpecV,
    out: SchemeFullV,
) -> bool {
    &&& out.scheme.id == sid
    &&& out.scheme.name@ == s.name
    &&& out.scheme.description@ == s.description
    &&& out.fields.len() == s.fields.len()
    &&& forall|i: int|
        #![trigger out.fields[i]]
        0 <= i < s.fields.len() ==> field_built(old_fields, sid, s.fields[i], i, out.fields[i])
    &&& out.tables.len() == s.tables.len()
    &&& forall|i: int|
        #![trigger out.tables[i]]
        0 <= i < s.tables.len() ==> table_built(old_tables, sid, s.tables[i], i, out.tables[i])
}

pub open spec fn scheme_of(v: Seq<SchemeFullV>, id: u128) -> Option<SchemeFullV>
    decreases v.len(),
{
    if v.len() == 0 {
        None
    } else if v.last().scheme.id == id {
        Some(v.last())
    } else {
        scheme_of(v.drop_last(), id)
    }
}

/// Some scheme has this name.
pub open spec fn name_used(v: Seq<SchemeFullV>, name: Seq<char>) -> bool {
    exists|i: int| 0 <= i < v.len() && #[trigger] v[i].scheme.name@ == name
}

/// Some scheme other than the one at index `skip` has this name.
pub open spec fn name_taken(v: Seq<SchemeFullV>, name: Seq<char>, skip: int) -> bool {
    exists|i: int| 0 <= i < v.len() && i != skip && #[trigger] v[i].scheme.name@ == name
}

fn clone_field(f: &SchemeField) -> (r: SchemeField)
    ensures
        r == *f,
{
    SchemeField {
        id: f.id,
        scheme_id: f.scheme_id,
        doc_kind: f.doc_kind.clone(),
        field_key: f.field_key.clone(),
        label: f.label.clone(),
        sort_key: f.sort_key,
        created_at: f.created_at,
        updated_at: f.updated_at,
    }
}

fn clone_column(c: &SchemeTableColumn) -> (r: SchemeTableColumn)
    ensures
        r == *c,
{
    SchemeTableColumn {
        id: c.id,
        table_id: c.table_id,
        column_key: c.column_key.clone(),
        label: c.label.clone(),
        sort_key: c.sort_key,
        created_at: c.created_at,
        updated_at: c.updated_at,
    }
}

fn clone_columns(v: &Vec<SchemeTableColumn>) -> (r: Vec<SchemeTableColumn>)
    ensures
        r@ == v@,
{
    let mut r: Vec<SchemeTableColumn> = Vec::new();
    let mut i: usize = 0;
    while i < v.len()
        invariant
            i <= v@.len(),
            r@ == v@.take(i as int),
        decreases v.len() - i,
    {
        r.push(clone_column(&v[i]));
        i = i + 1;
        assert(r@ =~= v@.take(i as int));
    }
    assert(v@.take(v@.len() as int) =~= v@);
    r
}

impl Clone for SchemeFull {
    fn clone(&self) -> (r: Self)
        ensures
            r@ == self@,
    {
        let mut fields: Vec<SchemeField> = Vec::new();
        let mut i: usize = 0;
        while i < self.fields.len()
            invariant
                i <= self.fields@.len(),
                fields@ == self.fields@.take(i as int),
            decreases self.fields.len() - i,
        {
            fields.push(clone_field(&self.fields[i]));
            i = i + 1;
            assert(fields@ =~= self.fields@.take(i as int));
        }
        assert(self.fields@.take(self.fields@.len() as int) =~= self.fields@);
        let mut tables: Vec<SchemeTableDef> = Vec::new();
        let mut i: usize = 0;
        while i < self.tables.len()
            invariant
                i <= self.tables@.len(),
                tables@.map_values(|t: SchemeTableDef| t@) == self.tables@.take(i as int).map_values(
                    |t: SchemeTableDef| t@,
                ),
            decreases self.tables.len() - i,
        {
            let t = &self.tables[i];
            let tb = SchemeTable {
                id: t.table.id,
                scheme_id: t.table.scheme_id,
                table_key: t.table.table_key.clone(),
                label: t.table.label.clone(),
                sort_key: t.table.sort_key,
                created_at: t.table.created_at,
                updated_at: t.table.updated_at,
            };
            assert(tb == t.table);
            let cols = clone_columns(&t.columns);
            let d = SchemeTableDef { table: tb, columns: cols };
            assert(d@ == t@);
            let ghost before = tables@;
            tables.push(d);
            proof {
                assert(tables@.map_values(|t: SchemeTableDef| t@) =~= before.map_values(
                    |t: SchemeTableDef| t@,
                ).push(t@));
                assert(self.tables@.take(i + 1).map_values(|t: SchemeTableDef| t@) =~= self.tables@.take(
                    i as int,
                ).map_values(|t: SchemeTableDef| t@).push(t@));
            }
            i = i + 1;
            assert(tables@.map_values(|t: SchemeTableDef| t@) =~= self.tables@.take(i as int).map_values(
                |t: SchemeTableDef| t@,
            ));
        }
        assert(self.tables@.take(self.tables@.len() as int) =~= self.tables@);
        SchemeFull {
            scheme: Scheme {
                id: self.scheme.id,
                name: self.scheme.name.clone(),
                description: self.scheme.description.clone(),
                created_at: self.scheme.created_at,
                updated_at: self.scheme.updated_at,
            },
            fields,
            tables,
        }
    }
}

fn find_field_match(old: &Vec<SchemeField>, dk: &String, key: &String) -> (r: Option<usize>)
    ensures
        match r {
            Some(i) => i < old@.len() && field_match(old@, dk@, key@) == Some(old@[i as int]),
            None => field_match(old@, dk@, key@) is None,
        },
{
    let mut i: usize = old.len();
    assert(old@.take(i as int) =~= old@);
    while i > 0
        invariant
            i <= old@.len(),
            field_match(old@, dk@, key@) == field_match(old@.take(i as int), dk@, key@),
        decreases i,
    {
        assert(old@.take(i as int).drop_last() =~= old@.take(i - 1));
        if str_eq(old[i - 1].doc_kind.as_str(), dk.as_str()) && str_eq(
            old[i - 1].field_key.as_str(),
            key.as_str(),
        ) {
            return Some(i - 1);
        }
        i = i - 1;
    }
    None
}

fn find_table_match(old: &Vec<SchemeTableDef>, key: &String) -> (r: Option<usize>)
    ensures
        match r {
            Some(i) => i < old@.len() && table_match(old@.map_values(|t: SchemeTableDef| t@), key@)
                == Some(old@[i as int]@),
            None => table_match(old@.map_values(|t: SchemeTableDef| t@), key@) is None,
        },
{
    let ghost ov = old@.map_values(|t: SchemeTableDef| t@);
    let mut i: usize = old.len();
    assert(ov.take(i as int) =~= ov);
    while i > 0
        invariant
            i <= old@.len(),
            ov == old@.map_values(|t: SchemeTableDef| t@),
            table_match(ov, key@) == table_match(ov.take(i as int), key@),
        decreases i,
    {
        assert(ov.take(i as int).drop_last() =~= ov.take(i - 1));
        if str_eq(old[i - 1].table.table_key.as_str(), key.as_str()) {
            return Some(i - 1);
        }
        i = i - 1;
    }
    None
}

fn find_column_match(old: &Vec<SchemeTableColumn>, key: &String) -> (r: Option<usize>)
    ensures
        match r {
            Some(i) => i < old@.len() && column_match(old@, key@) == Some(old@[i as int]),
            None => column_match(old@, key@) is None,
        },
{
    let mut i: usize = old.len();
    assert(old@.take(i as int) =~= old@);
    while i > 0
        invariant
            i <= old@.len(),
            column_match(old@, key@) == column_match(old@.take(i as int), key@),
        decreases i,
    {
        assert(old@.take(i as int).drop_last() =~= old@.take(i - 1));
        if str_eq(old[i - 1].column_key.as_str(), key.as_str()) {
            return Some(i - 1);
        }
        i = i - 1;
    }
    None
}

/// Writes the fields of scheme `sid` from the normalized definitions.
fn build_fields(old: &Vec<SchemeField>, sid: u128, defs: &Vec<SchemeFieldSpec>) -> (r: Vec<SchemeField>)
    ensures
        r@.len() == defs@.len(),
        forall|i: int|
            #![trigger r@[i]]
            0 <= i < defs@.len() ==> field_built(old@, sid, defs@[i]@, i, r@[i]),
{
    let mut r: Vec<SchemeField> = Vec::new();
    let mut i: usize = 0;
    while i < defs.len()
        invariant
            i <= defs@.len(),
            r@.len() == i,
            forall|x: int| #![trigger r@[x]] 0 <= x < i ==> field_built(old@, sid, defs@[x]@, x, r@[x]),
        decreases defs.len() - i,
    {
        let d = &defs[i];
        let now = now_micros();
        let (id, created_at) = match find_field_match(old, &d.doc_kind, &d.field_key) {
            Some(k) => (old[k].id, old[k].created_at),
            None => (new_id(), now),
        };
        r.push(
            SchemeField {
                id,
                scheme_id: sid,
                doc_kind: d.doc_kind.clone(),
                field_key: d.field_key.clone(),
                label: d.label.clone(),
                sort_key: i as i32,
                created_at,
                updated_at: now,
            },
        );
        i = i + 1;
    }
    r
}

/// Writes the columns of table `tid` from the normalized definitions.
fn build_columns(old: &Vec<SchemeTableColumn>, tid: u128, defs: &Vec<SchemeColumnSpec>) -> (r: Vec<
    SchemeTableColumn,
>)
    ensures
        r@.len() == defs@.len(),
        forall|j: int|
            #![trigger r@[j]]
            0 <= j < defs@.len() ==> column_built(old@, tid, defs@[j]@, j, r@[j]),
{
    let mut r: Vec<SchemeTableColumn> = Vec::new();
    let mut i: usize = 0;
    while i < defs.len()
        invariant
            i <= defs@.len(),
            r@.len() == i,
            forall|x: int| #![trigger r@[x]] 0 <= x < i ==> column_built(old@, tid, defs@[x]@, x, r@[x]),
        decreases defs.len() - i,
    {
        let d = &defs[i];
        let now = now_micros();
        let (id, created_at) = match find_column_match(old, &d.column_key) {
            Some(k) => (old[k].id, old[k].created_at),
            None => (new_id(), now),
        };
        r.push(
            SchemeTableColumn {
                id,
                table_id: tid,
                column_key: d.column_key.clone(),
                label: d.label.clone(),
                sort_key: i as i32,
                created_at,
                updated_at: now,
            },
        );
        i = i + 1;
    }
    r
}

/// Writes the tables of scheme `sid` (with their columns) from the normalized definitions.
fn build_tables(old: &Vec<SchemeTableDef>, sid: u128, defs: &Vec<SchemeTableSpec>) -> (r: Vec<
    SchemeTableDef,
>)
    ensures
        r@.len() == defs@.len(),
        forall|i: int|
            #![trigger r@[i]]
            0 <= i < defs@.len() ==> table_built(
                old@.map_values(|t: SchemeTableDef| t@),
                sid,
                defs@[i]@,
                i,
                r@[i]@,
            ),
{
    let mut r: Vec<SchemeTableDef> = Vec::new();
    let mut i: usize = 0;
    while i < defs.len()
        invariant
            i <= defs@.len(),
            r@.len() == i,
            forall|x: int|
                #![trigger r@[x]]
                0 <= x < i ==> table_built(
                    old@.map_values(|t: SchemeTableDef| t@),
                    sid,
                    defs@[x]@,
                    x,
                    r@[x]@,
                ),
        decreases defs.len() - i,
    {
        let d = &defs[i];
        let now = now_micros();
        let empty: Vec<SchemeTableColumn> = Vec::new();
        let (id, created_at, old_cols) = match find_table_match(old, &d.table_key) {
            Some(k) => (old[k].table.id, old[k].table.created_at, &old[k].columns),
            None => (new_id(), now, &empty),
        };
        let columns = build_columns(old_cols, id, &d.columns);
        assert(d@.columns == d.columns@.map_values(|c: SchemeColumnSpec| c@));
        r.push(
            SchemeTableDef {
                table: SchemeTable {
                    id,
                    scheme_id: sid,
                    table_key: d.table_key.clone(),
                    label: d.label.clone(),
                    sort_key: i as i32,
                    created_at,
                    updated_at: now,
                },
                columns,
            },
        );
        i = i + 1;
    }
    r
}

/// The scheme service over all schemes.
pub struct SchemeService {
    pub schemes: Vec<SchemeFull>,
}

impl SchemeService {
    pub fn new() -> (s: SchemeService)
        ensures
            s.schemes@.len() == 0,
    {
        SchemeService { schemes: Vec::new() }
    }

    /// The scheme headers, in store order.
    pub fn list(&self) -> (r: Vec<Scheme>)
        ensures
            r@ == self.schemes@.map_values(|s: SchemeFull| s.scheme),
    {
        let mut r: Vec<Scheme> = Vec::new();
        let mut i: usize = 0;
        while i < self.schemes.len()
            invariant
                i <= self.schemes@.len(),
                r@ == self.schemes@.take(i as int).map_values(|s: SchemeFull| s.scheme),
            decreases self.schemes.len() - i,
        {
            let s = &self.schemes[i].scheme;
            r.push(
                Scheme {
                    id: s.id,
                    name: s.name.clone(),
                    description: s.description.clone(),
                    created_at: s.created_at,
                    updated_at: s.updated_at,
                },
            );
            i = i + 1;
            assert(r@ =~= self.schemes@.take(i as int).map_values(|s: SchemeFull| s.scheme));
        }
        assert(self.schemes@.take(self.schemes@.len() as int) =~= self.schemes@);
        r
    }

    fn index_of(&self, id: u128) -> (r: Option<usize>)
        ensures
            match r {
                Some(i) => i < self.schemes@.len() && scheme_of(schemes_view(self.schemes@), id)
                    == Some(self.schemes@[i as int]@) && self.schemes@[i as int].scheme.id == id,
                None => scheme_of(schemes_view(self.schemes@), id) is None,
            },
    {
        let ghost sv = schemes_view(self.schemes@);
        let mut i: usize = self.schemes.len();
        assert(sv.take(i as int) =~= sv);
        while i > 0
            invariant
                i <= self.schemes@.len(),
                sv == schemes_view(self.schemes@),
                scheme_of(sv, id) == scheme_of(sv.take(i as int), id),
            decreases i,
        {
            assert(sv.take(i as int).drop_last() =~= sv.take(i - 1));
            if self.schemes[i - 1].scheme.id == id {
                return Some(i - 1);
            }
            i = i - 1;
        }
        None
    }

    /// The whole scheme `id`; NotFound (`scheme_not_found`).
    pub fn get(&self, id: u128) -> (r: Result<SchemeFull, ServiceError>)
        ensures
            match r {
                Ok(s) => scheme_of(schemes_view(self.schemes@), id) == Some(s@),
                Err(e) => scheme_of(schemes_view(self.schemes@), id) is None && e is NotFound
                    && e.message() == "scheme_not_found"@,
            },
    {
        match self.index_of(id) {
            Some(i) => Ok(self.schemes[i].clone()),
            None => Err(ServiceError::NotFound(String::from_str("scheme_not_found"))),
        }
    }

    fn name_index(&self, name: &String, skip: usize) -> (r: bool)
        ensures
            r == name_taken(schemes_view(self.schemes@), name@, skip as int),
    {
        let ghost sv = schemes_view(self.schemes@);
        let mut i: usize = 0;
        while i < self.schemes.len()
            invariant
                i <= self.schemes@.len(),
                sv == schemes_view(self.schemes@),
                forall|x: int| 0 <= x < i && x != skip ==> (#[trigger] self.schemes@[x]).scheme.name@ != name@,
            decreases self.schemes.len() - i,
        {
            if i != skip && str_eq(self.schemes[i].scheme.name.as_str(), name.as_str()) {
                assert(sv[i as int].scheme.name@ == name@);
                return true;
            }
            i = i + 1;
        }
        false
    }

    /// Creates a scheme from a definition: normalized (see `normalize`),
    /// then stored with fresh ids and sort keys in definition order.
    /// Conflict (`scheme name already exists: <name>`) when the name is taken.
    pub fn create(&mut self, spec: SchemeSpec) -> (r: Result<SchemeFull, ServiceError>)
        ensures
            match r {
                Ok(s) => normalize_spec(spec@) is Ok && !name_used(
                    schemes_view(old(self).schemes@),
                    normalize_spec(spec@)->Ok_0.name,
                ) && scheme_built(
                    Seq::empty(),
                    Seq::empty(),
                    s.scheme.id,
                    normalize_spec(spec@)->Ok_0,
                    s@,
                ) && schemes_view(final(self).schemes@) == schemes_view(old(self).schemes@).push(s@),
                Err(e) => final(self).schemes@ == old(self).schemes@ && match normalize_spec(spec@) {
                    Err(m) => e is Validation && e.message() == m,
                    Ok(n) => name_used(schemes_view(old(self).schemes@), n.name) && e is Conflict
                        && e.message() == "scheme name already exists: "@ + n.name,
                },
            },
    {
        let s = match normalize(spec) {
            Ok(s) => s,
            Err(e) => {
                return Err(e);
            },
        };
        let n = self.schemes.len();
        let taken = self.name_index(&s.name, usize::MAX);
        assert(taken == name_used(schemes_view(self.schemes@), s.name@)) by {
            let sv = schemes_view(self.schemes@);
            if name_used(sv, s.name@) {
                let i = choose|i: int| 0 <= i < sv.len() && #[trigger] sv[i].scheme.name@ == s.name@;
                assert(i < n);
            }
        }
        if taken {
            let mut m = String::from_str("scheme name already exists: ");
            m.append(s.name.as_str());
            return Err(ServiceError::Conflict(m));
        }
        let now = now_micros();
        let id = new_id();
        let no_fields: Vec<SchemeField> = Vec::new();
        let no_tables: Vec<SchemeTableDef> = Vec::new();
        let fields = build_fields(&no_fields, id, &s.fields);
        let tables = build_tables(&no_tables, id, &s.tables);
        let full = SchemeFull {
            scheme: Scheme { id, name: s.name, description: s.description, created_at: now, updated_at: now },
            fields,
            tables,
        };
        let ghost before = self.schemes@;
        self.schemes.push(full.clone());
        proof {
            assert(schemes_view(self.schemes@) =~= schemes_view(before).push(full@));
            assert(no_tables@.map_values(|t: SchemeTableDef| t@) =~= Seq::<TableDefV>::empty());
            assert forall|i: int| 0 <= i < s@.fields.len() implies field_built(
                Seq::empty(),
                id,
                s@.fields[i],
                i,
                #[trigger] full@.fields[i],
            ) by {
                assert(s@.fields[i] == s.fields@[i]@);
            }
            assert forall|i: int| 0 <= i < s@.tables.len() implies table_built(
                Seq::empty(),
                id,
                s@.tables[i],
                i,
                #[trigger] full@.tables[i],
            ) by {
                assert(s@.tables[i] == s.tables@[i]@);
                assert(full@.tables[i] == tables@[i]@);
            }
        }
        Ok(full)
    }

    /// Replaces scheme `id` by a definition: normalized (see `normalize`);
    /// NotFound (`scheme_not_found`); Conflict (`scheme name already exists:
    /// <name>`) when another scheme has the name. Fields, tables and columns
    /// are upserted by natural key (an existing one keeps its id), the others
    /// are dropped, sort keys follow the definition order.
    pub fn replace(&mut self, id: u128, spec: SchemeSpec) -> (r: Result<SchemeFull, ServiceError>)
        ensures
            match r {
                Ok(s) => {
                    let n = normalize_spec(spec@)->Ok_0;
                    &&& normalize_spec(spec@) is Ok
                    &&& exists|j: int|
                        0 <= j < old(self).schemes@.len() && #[trigger] old(self).schemes@[j].scheme.id == id
                            && scheme_of(schemes_view(old(self).schemes@), id) == Some(old(self).schemes@[j]@)
                            && !name_taken(schemes_view(old(self).schemes@), n.name, j)
                            && scheme_built(
                            old(self).schemes@[j]@.fields,
                            old(self).schemes@[j]@.tables,
                            id,
                            n,
                            s@,
                        ) && s.scheme.created_at == old(self).schemes@[j].scheme.created_at
                            && schemes_view(final(self).schemes@) == schemes_view(old(self).schemes@).update(j, s@)
                },
                Err(e) => final(self).schemes@ == old(self).schemes@ && match normalize_spec(spec@) {
                    Err(m) => e is Validation && e.message() == m,
                    Ok(n) => if scheme_of(schemes_view(old(self).schemes@), id) is None {
                        e is NotFound && e.message() == "scheme_not_found"@
                    } else {
                        e is Conflict && e.message() == "scheme name already exists: "@ + n.name
                    },
                },
            },
    {
        let s = match normalize(spec) {
            Ok(s) => s,
            Err(e) => {
                return Err(e);
            },
        };
        let j = match self.index_of(id) {
            Some(j) => j,
            None => {
                return Err(ServiceError::NotFound(String::from_str("scheme_not_found")));
            },
        };
        if self.name_index(&s.name, j) {
            let mut m = String::from_str("scheme name already exists: ");
            m.append(s.name.as_str());
            return Err(ServiceError::Conflict(m));
        }
        let now = now_micros();
        let old_full = &self.schemes[j];
        let fields = build_fields(&old_full.fields, id, &s.fields);
        let tables = build_tables(&old_full.tables, id, &s.tables);
        let full = SchemeFull {
            scheme: Scheme {
                id,
                name: s.name,
                description: s.description,
                created_at: old_full.scheme.created_at,
                updated_at: now,
            },
            fields,
            tables,
        };
        let ghost before = self.schemes@;
        let ghost ofull = before[j as int]@;
        self.schemes.set(j, full.clone());
        proof {
            assert(schemes_view(self.schemes@) =~= schemes_view(before).update(j as int, full@));
            assert forall|i: int| 0 <= i < s@.fields.len() implies field_built(
                ofull.fields,
                id,
                s@.fields[i],
                i,
                #[trigger] full@.fields[i],
            ) by {
                assert(s@.fields[i] == s.fields@[i]@);
            }
            assert forall|i: int| 0 <= i < s@.tables.len() implies table_built(
                ofull.tables,
                id,
                s@.tables[i],
                i,
                #[trigger] full@.tables[i],
            ) by {
                assert(s@.tables[i] == s.tables@[i]@);
                assert(full@.tables[i] == tables@[i]@);
            }
            assert(before[j as int].scheme.id == id);
        }
        Ok(full)
    }

    /// Deletes scheme `id`. Conflict (`scheme is referenced by projects;
    /// unbind first`) while a project is bound to it; NotFound (`scheme_not_found`).
    pub fn delete(&mut self, id: u128, projects: &crate::project_service::ProjectService) -> (r: Result<
        (),
        ServiceError,
    >)
        ensures
            match r {
                Ok(()) => !crate::project_service::scheme_bound(projects.projects@, id) && exists|j: int|
                    0 <= j < old(self).schemes@.len() && #[trigger] old(self).schemes@[j].scheme.id == id
                        && final(self).schemes@ == old(self).schemes@.remove(j),
                Err(e) => final(self).schemes@ == old(self).schemes@ && if crate::project_service::scheme_bound(
                    projects.projects@,
                    id,
                ) {
                    e is Conflict && e.message() == "scheme is referenced by projects; unbind first"@
                } else {
                    scheme_of(schemes_view(old(self).schemes@), id) is None && e is NotFound
                        && e.message() == "scheme_not_found"@
                },
            },
    {
        if projects.is_scheme_bound(id) {
            return Err(
                ServiceError::Conflict(String::from_str("scheme is referenced by projects; unbind first")),
            );
        }
        match self.index_of(id) {
            Some(j) => {
                self.schemes.remove(j);
                Ok(())
            },
            None => Err(ServiceError::NotFound(String::from_str("scheme_not_found"))),
        }
    }
}

} // verus!
