//! Assembly: a template's nodes, in document order, evaluated against the
//! project's data into a sequence of body blocks (text with fields expanded,
//! data tables with their scheme columns, trace slices, filled slots).
use vstd::prelude::*;
use crate::content::ContentSpec;
use crate::error::ServiceError;
use crate::projectdata::{cell_get, DataRow, DataTable, ProjectDataView};
use crate::text::{opt_view, str_eq};
use crate::trace_model::{LinkType, TraceNode, TraceNodeKind};
use crate::trace_service::TraceService;
use crate::trace_store::nodes_of;
use crate::trace_views::{nodes_sorted, sort_trace_nodes, TraceMatrix, TraceMatrixRow};

verus! {

broadcast use vstd::seq_lib::to_multiset_build, vstd::seq_lib::to_multiset_insert;

/// The value of the first field with this scope and key.
pub open spec fn find_field(
    fields: Seq<crate::projectdata::DataField>,
    scope: Seq<char>,
    key: Seq<char>,
) -> Option<Seq<char>>
    decreases fields.len(),
{
    if fields.len() == 0 {
        None
    } else if fields[0].doc_kind@ == scope && fields[0].field_key@ == key {
        Some(fields[0].value@)
    } else {
        find_field(fields.drop_first(), scope, key)
    }
}

/// The scope lookup of a scalar field: the explicit doc kind (when given,
/// not empty and not `project`), then the document's own class (when not
/// `project` and not tried already), then `project`.
pub open spec fn view_field_spec(
    key: Seq<char>,
    doc_kind: Option<Seq<char>>,
    scope: Seq<char>,
    fields: Seq<crate::projectdata::DataField>,
) -> Option<Seq<char>> {
    let tried = doc_kind is Some && doc_kind->0.len() > 0 && doc_kind->0 != "project"@;
    if tried && find_field(fields, doc_kind->0, key) is Some {
        find_field(fields, doc_kind->0, key)
    } else if scope != "project"@ && !(tried && doc_kind->0 == scope) && find_field(
        fields,
        scope,
        key,
    ) is Some {
        find_field(fields, scope, key)
    } else {
        find_field(fields, "project"@, key)
    }
}

pub open spec fn opt_str_view(o: Option<&str>) -> Option<Seq<char>> {
    match o {
        Some(s) => Some(s@),
        None => None,
    }
}

/// A table block: the header `(key, label)` and the rows as `(key, text)`
/// cells, one per column.
pub struct TableProjection {
    pub columns: Vec<(String, String)>,
    pub rows: Vec<Vec<(String, String)>>,
}

/// A node as a slice lists it.
pub struct ItemRow {
    pub id: u128,
    pub external_ref: String,
    pub title: String,
    pub module: Option<String>,
}

/// A covering entry of a matrix row, with its link type name.
pub struct CoverRow {
    pub id: u128,
    pub external_ref: String,
    pub title: String,
    pub link_type: String,
}

/// A matrix row as a document shows it.
pub struct MatrixRowView {
    pub requirement: ItemRow,
    pub covering: Vec<CoverRow>,
}

/// A trace slice: the matrix or the list of test items.
pub enum TraceValue {
    Matrix { rows: Vec<MatrixRowView> },
    TestItems { items: Vec<ItemRow> },
}

pub open spec fn item_row_of(n: TraceNode, r: ItemRow) -> bool {
    r.id == n.id && r.external_ref == n.external_ref && r.title == n.title && r.module == n.module
}

/// A row passes the optional filters: a non-empty `party_kind` (resp.
/// `category`) must equal that cell exactly.
pub open spec fn row_passes(
    cells: Seq<(String, String)>,
    party_kind: Option<Seq<char>>,
    category: Option<Seq<char>>,
) -> bool {
    &&& (party_kind is Some && party_kind->0.len() > 0 ==> cell_get(cells, "party_kind"@)
        == party_kind)
    &&& (category is Some && category->0.len() > 0 ==> cell_get(cells, "category"@) == category)
}

/// The rows that pass the filters, in order.
pub open spec fn passing_rows(
    rows: Seq<DataRow>,
    party_kind: Option<Seq<char>>,
    category: Option<Seq<char>>,
) -> Seq<DataRow>
    decreases rows.len(),
{
    if rows.len() == 0 {
        Seq::empty()
    } else if row_passes(rows.last().cells@, party_kind, category) {
        passing_rows(rows.drop_last(), party_kind, category).push(rows.last())
    } else {
        passing_rows(rows.drop_last(), party_kind, category)
    }
}

/// A projected row: one `(column_key, text)` per column, an absent cell empty.
pub open spec fn projected_row(
    columns: Seq<crate::projectdata::DataColumn>,
    cells: Seq<(String, String)>,
    out: Seq<(String, String)>,
) -> bool {
    &&& out.len() == columns.len()
    &&& forall|j: int|
        #![trigger out[j]]
        0 <= j < out.len() ==> out[j].0@ == columns[j].column_key@ && out[j].1@ == match cell_get(
            cells,
            columns[j].column_key@,
        ) {
            Some(v) => v,
            None => Seq::<char>::empty(),
        }
}

/// What `table_projection` gives: the columns, and the rows sorted by row
/// index (stably), filtered, projected onto the columns.
pub open spec fn table_projection_spec(
    table: DataTable,
    party_kind: Option<Seq<char>>,
    category: Option<Seq<char>>,
    p: TableProjection,
) -> bool {
    let rows = passing_rows(crate::projectdata::sort_rows(table.rows@), party_kind, category);
    &&& p.columns@.len() == table.columns@.len()
    &&& forall|j: int|
        #![trigger p.columns@[j]]
        0 <= j < p.columns@.len() ==> p.columns@[j].0@ == table.columns@[j].column_key@
            && p.columns@[j].1@ == table.columns@[j].label@
    &&& p.rows@.len() == rows.len()
    &&& forall|i: int|
        #![trigger p.rows@[i]]
        0 <= i < p.rows@.len() ==> projected_row(table.columns@, rows[i].cells@, p.rows@[i]@)
}

/// The first table with this key.
pub open spec fn find_table(tables: Seq<DataTable>, key: Seq<char>) -> Option<DataTable>
    decreases tables.len(),
{
    if tables.len() == 0 {
        None
    } else if tables[0].table_key@ == key {
        Some(tables[0])
    } else {
        find_table(tables.drop_first(), key)
    }
}

/// The test items among the nodes, in order.
pub open spec fn test_items_of(nodes: Seq<TraceNode>) -> Seq<TraceNode>
    decreases nodes.len(),
{
    if nodes.len() == 0 {
        Seq::empty()
    } else if nodes.last().kind == TraceNodeKind::TestItem {
        test_items_of(nodes.drop_last()).push(nodes.last())
    } else {
        test_items_of(nodes.drop_last())
    }
}

/// The test item slice: the test items, ordered by creation time then id.
pub open spec fn test_item_rows_spec(nodes: Seq<TraceNode>, r: Seq<ItemRow>) -> bool {
    exists|sorted: Seq<TraceNode>|
        #![trigger sorted.to_multiset()]
        sorted.to_multiset() == test_items_of(nodes).to_multiset() && nodes_sorted(false, sorted)
            && sorted.len() == r.len() && forall|i: int|
            #![trigger r[i]]
            0 <= i < r.len() ==> item_row_of(sorted[i], r[i])
}

/// The matrix projection: per row the requirement and its covering entries
/// with their link type names.
pub open spec fn matrix_rows_spec(m: Seq<TraceMatrixRow>, r: Seq<MatrixRowView>) -> bool {
    &&& r.len() == m.len()
    &&& forall|i: int|
        #![trigger r[i]]
        0 <= i < r.len() ==> {
            &&& item_row_of(m[i].requirement, r[i].requirement)
            &&& r[i].covering@.len() == m[i].covering@.len()
            &&& forall|j: int|
                #![trigger r[i].covering@[j]]
                0 <= j < r[i].covering@.len() ==> {
                    let c = m[i].covering@[j];
                    &&& r[i].covering@[j].id == c.0.id
                    &&& r[i].covering@[j].external_ref == c.0.external_ref
                    &&& r[i].covering@[j].title == c.0.title
                    &&& r[i].covering@[j].link_type@ == crate::trace_model::link_type_name(c.1)
                }
        }
}

fn item_row(n: &TraceNode) -> (r: ItemRow)
    ensures
        item_row_of(*n, r),
{
    ItemRow {
        id: n.id,
        external_ref: n.external_ref.clone(),
        title: n.title.clone(),
        module: crate::trace_model::clone_opt_string(&n.module),
    }
}

fn find_cell(cells: &Vec<(String, String)>, key: &str) -> (r: Option<String>)
    ensures
        opt_view(r) == cell_get(cells@, key@),
{
    let mut i: usize = 0;
    assert(cells@.skip(0) =~= cells@);
    while i < cells.len()
        invariant
            i <= cells@.len(),
            cell_get(cells@, key@) == cell_get(cells@.skip(i as int), key@),
        decreases cells.len() - i,
    {
        assert(cells@.skip(i as int)[0] == cells@[i as int]);
        assert(cells@.skip(i as int).drop_first() =~= cells@.skip(i + 1));
        if str_eq(cells[i].0.as_str(), key) {
            return Some(cells[i].1.clone());
        }
        i = i + 1;
    }
    None
}

fn passes(cells: &Vec<(String, String)>, party_kind: Option<&str>, category: Option<&str>) -> (r:
    bool)
    ensures
        r == row_passes(cells@, opt_str_view(party_kind), opt_str_view(category)),
{
    proof {
        reveal_strlit("party_kind");
        reveal_strlit("category");
    }
    let mut ok = true;
    if let Some(pk) = party_kind {
        if !pk.is_empty() {
            match find_cell(cells, "party_kind") {
                Some(v) => {
                    if !str_eq(v.as_str(), pk) {
                        ok = false;
                    }
                },
                None => {
                    ok = false;
                },
            }
        }
    }
    if ok {
        if let Some(cat) = category {
            if !cat.is_empty() {
                match find_cell(cells, "category") {
                    Some(v) => {
                        if !str_eq(v.as_str(), cat) {
                            ok = false;
                        }
                    },
                    None => {
                        ok = false;
                    },
                }
            }
        }
    }
    ok
}

/// The scalar field `field_key`, looked up in the scopes: the explicit
/// `doc_kind` (when given, not empty and not `project`), then the document's
/// class `doc_scope` (when not `project` and not tried yet), then `project`.
pub fn view_field(field_key: &str, doc_kind: Option<&str>, doc_scope: &str, view: &ProjectDataView) -> (r:
    Option<String>)
    ensures
        opt_view(r) == view_field_spec(field_key@, opt_str_view(doc_kind), doc_scope@, view.fields@),
{
    let mut tried = false;
    if let Some(dk) = doc_kind {
        if !dk.is_empty() && !str_eq(dk, "project") {
            let v = find_in_scope(view, dk, field_key);
            if v.is_some() {
                return v;
            }
            tried = true;
        }
    }
    let mut skip_scope = false;
    if tried {
        if let Some(dk) = doc_kind {
            skip_scope = str_eq(dk, doc_scope);
        }
    }
    if !str_eq(doc_scope, "project") && !skip_scope {
        let v = find_in_scope(view, doc_scope, field_key);
        if v.is_some() {
            return v;
        }
    }
    find_in_scope(view, "project", field_key)
}

fn find_in_scope(view: &ProjectDataView, scope: &str, key: &str) -> (r: Option<String>)
    ensures
        opt_view(r) == find_field(view.fields@, scope@, key@),
{
    let mut i: usize = 0;
    assert(view.fields@.skip(0) =~= view.fields@);
    while i < view.fields.len()
        invariant
            i <= view.fields@.len(),
            find_field(view.fields@, scope@, key@) == find_field(view.fields@.skip(i as int), scope@, key@),
        decreases view.fields.len() - i,
    {
        assert(view.fields@.skip(i as int)[0] == view.fields@[i as int]);
        assert(view.fields@.skip(i as int).drop_first() =~= view.fields@.skip(i + 1));
        let f = &view.fields[i];
        if str_eq(f.doc_kind.as_str(), scope) && str_eq(f.field_key.as_str(), key) {
            return Some(f.value.clone());
        }
        i = i + 1;
    }
    None
}

/// Expands the `{field_key}` placeholders of `text` with the project's
/// scalar fields (scope lookup as `view_field`); a field not found keeps its
/// placeholder.
pub fn expand_fields(text: &str, view: &ProjectDataView, doc_scope: &str, doc_kind: Option<&str>) -> (r:
    String)
    ensures
        r@ == crate::content::interpolate_spec(
            text@,
            |k: Seq<char>| view_field_spec(k, opt_str_view(doc_kind), doc_scope@, view.fields@),
        ),
{
    let lookup = |key: &str| -> (o: Option<String>)
        ensures
            opt_view(o) == view_field_spec(key@, opt_str_view(doc_kind), doc_scope@, view.fields@),
        { view_field(key, doc_kind, doc_scope, view) };
    let r = ContentSpec::interpolate(text, lookup);
    proof {
        let f = |k: Seq<char>| view_field_spec(k, opt_str_view(doc_kind), doc_scope@, view.fields@);
        let vals = choose|vals: Seq<Option<String>>|
            #[trigger] crate::content::interpolated_by(text@, lookup, vals, r@);
        let keys = crate::content::interp_keys(text@);
        assert(vals.map_values(|o: Option<String>| opt_view(o)) =~= keys.map_values(f)) by {
            assert forall|i: int| 0 <= i < vals.len() implies opt_view(vals[i]) == f(keys[i]) by {
                assert(crate::content::looked_up(lookup, keys[i], vals[i]));
                let k = choose|k: &str| k@ == keys[i] && #[trigger] lookup.ensures((k,), vals[i]);
            }
        }
    }
    r
}

/// The table block of a data table: its columns, and its rows stably sorted
/// by row index, kept when a non-empty `party_kind` / `category` filter equals
/// the row's cell of that name, each projected onto the columns (an absent
/// cell is empty).
pub fn table_projection(table: &DataTable, party_kind: Option<&str>, category: Option<&str>) -> (r:
    TableProjection)
    ensures
        table_projection_spec(*table, opt_str_view(party_kind), opt_str_view(category), r),
{
    let mut columns: Vec<(String, String)> = Vec::new();
    let mut j: usize = 0;
    while j < table.columns.len()
        invariant
            j <= table.columns@.len(),
            columns@.len() == j,
            forall|x: int|
                #![trigger columns@[x]]
                0 <= x < j ==> columns@[x].0@ == table.columns@[x].column_key@ && columns@[x].1@
                    == table.columns@[x].label@,
        decreases table.columns.len() - j,
    {
        let c = &table.columns[j];
        columns.push((c.column_key.clone(), c.label.clone()));
        j = j + 1;
    }
    let sorted = crate::projectdata::sort_rows_exec(&table.rows);
    let ghost ss = crate::projectdata::sort_rows(table.rows@);
    let ghost pk = opt_str_view(party_kind);
    let ghost cat = opt_str_view(category);
    let mut rows: Vec<Vec<(String, String)>> = Vec::new();
    let ghost mut kept: Seq<DataRow> = Seq::empty();
    let mut i: usize = 0;
    while i < sorted.len()
        invariant
            i <= sorted@.len(),
            pk == opt_str_view(party_kind),
            cat == opt_str_view(category),
            ss == crate::projectdata::sort_rows(table.rows@),
            sorted@.len() == ss.len(),
            forall|x: int|
                #![trigger sorted@[x]]
                0 <= x < sorted@.len() ==> sorted@[x].cells@ == ss[x].cells@,
            kept.len() == rows@.len(),
            forall|x: int|
                #![trigger rows@[x]]
                0 <= x < rows@.len() ==> projected_row(table.columns@, kept[x].cells@, rows@[x]@),
            forall|x: int|
                #![trigger kept[x]]
                0 <= x < kept.len() ==> kept[x].cells@ == passing_rows(ss.take(i as int), pk, cat)[x].cells@,
            kept.len() == passing_rows(ss.take(i as int), pk, cat).len(),
        decreases sorted.len() - i,
    {
        let r = &sorted[i];
        assert(ss.take(i + 1).drop_last() =~= ss.take(i as int));
        assert(ss.take(i + 1).last() == ss[i as int]);
        assert(r.cells@ == ss[i as int].cells@);
        if passes(&r.cells, party_kind, category) {
            let mut out: Vec<(String, String)> = Vec::new();
            let mut j: usize = 0;
            while j < table.columns.len()
                invariant
                    j <= table.columns@.len(),
                    out@.len() == j,
                    forall|x: int|
                        #![trigger out@[x]]
                        0 <= x < j ==> out@[x].0@ == table.columns@[x].column_key@ && out@[x].1@
                            == match cell_get(r.cells@, table.columns@[x].column_key@) {
                            Some(v) => v,
                            None => Seq::<char>::empty(),
                        },
                decreases table.columns.len() - j,
            {
                let key = &table.columns[j].column_key;
                let v = match find_cell(&r.cells, key.as_str()) {
                    Some(v) => v,
                    None => String::new(),
                };
                out.push((key.clone(), v));
                j = j + 1;
            }
            let ghost prev_kept = kept;
            proof {
                assert(passing_rows(ss.take(i + 1), pk, cat) == passing_rows(ss.take(i as int), pk, cat).push(ss[i as int]));
                kept = kept.push(ss[i as int]);
                assert forall|x: int| 0 <= x < kept.len() implies kept[x].cells@ == passing_rows(
                    ss.take(i + 1),
                    pk,
                    cat,
                )[x].cells@ by {
                    if x < prev_kept.len() {
                        assert(kept[x] == prev_kept[x]);
                    }
                }
            }
            rows.push(out);
        } else {
            assert(passing_rows(ss.take(i + 1), pk, cat) == passing_rows(ss.take(i as int), pk, cat));
        }
        i = i + 1;
    }
    assert(ss.take(ss.len() as int) =~= ss);
    TableProjection { columns, rows }
}

/// The table block of the table with key `source` (an unknown key gives no
/// columns and no rows).
pub fn table_value(
    view: &ProjectDataView,
    source: &str,
    party_kind: Option<&str>,
    category: Option<&str>,
) -> (r: TableProjection)
    ensures
        match find_table(view.tables@, source@) {
            Some(t) => table_projection_spec(t, opt_str_view(party_kind), opt_str_view(category), r),
            None => r.columns@.len() == 0 && r.rows@.len() == 0,
        },
{
    let mut i: usize = 0;
    assert(view.tables@.skip(0) =~= view.tables@);
    while i < view.tables.len()
        invariant
            i <= view.tables@.len(),
            find_table(view.tables@, source@) == find_table(view.tables@.skip(i as int), source@),
        decreases view.tables.len() - i,
    {
        assert(view.tables@.skip(i as int)[0] == view.tables@[i as int]);
        assert(view.tables@.skip(i as int).drop_first() =~= view.tables@.skip(i + 1));
        if str_eq(view.tables[i].table_key.as_str(), source) {
            return table_projection(&view.tables[i], party_kind, category);
        }
        i = i + 1;
    }
    TableProjection { columns: Vec::new(), rows: Vec::new() }
}

/// The test item slice: only test items, ordered by creation time then id.
pub fn test_item_rows(nodes: &Vec<TraceNode>) -> (r: Vec<ItemRow>)
    ensures
        test_item_rows_spec(nodes@, r@),
{
    let mut items: Vec<TraceNode> = Vec::new();
    let mut i: usize = 0;
    while i < nodes.len()
        invariant
            i <= nodes@.len(),
            items@ == test_items_of(nodes@.take(i as int)),
        decreases nodes.len() - i,
    {
        assert(nodes@.take(i + 1).drop_last() =~= nodes@.take(i as int));
        if nodes[i].kind == TraceNodeKind::TestItem {
            items.push(nodes[i].clone());
        }
        i = i + 1;
    }
    assert(nodes@.take(nodes@.len() as int) =~= nodes@);
    let sorted = sort_trace_nodes(&items, false);
    let mut r: Vec<ItemRow> = Vec::new();
    let mut k: usize = 0;
    while k < sorted.len()
        invariant
            k <= sorted@.len(),
            r@.len() == k,
            forall|x: int| #![trigger r@[x]] 0 <= x < k ==> item_row_of(sorted@[x], r@[x]),
        decreases sorted.len() - k,
    {
        r.push(item_row(&sorted[k]));
        k = k + 1;
    }
    assert(sorted@.to_multiset() == test_items_of(nodes@).to_multiset());
    r
}

/// The matrix projection: per row the requirement (id, ref, title, module)
/// and each covering node (id, ref, title) with its link type name.
pub fn matrix_rows(m: &TraceMatrix) -> (r: Vec<MatrixRowView>)
    ensures
        matrix_rows_spec(m.rows@, r@),
{
    let mut r: Vec<MatrixRowView> = Vec::new();
    let mut i: usize = 0;
    while i < m.rows.len()
        invariant
            i <= m.rows@.len(),
            r@.len() == i,
            forall|x: int|
                #![trigger r@[x]]
                0 <= x < i ==> {
                    &&& item_row_of(m.rows@[x].requirement, r@[x].requirement)
                    &&& r@[x].covering@.len() == m.rows@[x].covering@.len()
                    &&& forall|j: int|
                        #![trigger r@[x].covering@[j]]
                        0 <= j < r@[x].covering@.len() ==> {
                            let c = m.rows@[x].covering@[j];
                            &&& r@[x].covering@[j].id == c.0.id
                            &&& r@[x].covering@[j].external_ref == c.0.external_ref
                            &&& r@[x].covering@[j].title == c.0.title
                            &&& r@[x].covering@[j].link_type@ == crate::trace_model::link_type_name(
                                c.1,
                            )
                        }
                },
        decreases m.rows.len() - i,
    {
        let row = &m.rows[i];
        let mut cov: Vec<CoverRow> = Vec::new();
        let mut j: usize = 0;
        while j < row.covering.len()
            invariant
                j <= row.covering@.len(),
                cov@.len() == j,
                forall|y: int|
                    #![trigger cov@[y]]
                    0 <= y < j ==> {
                        let c = row.covering@[y];
                        &&& cov@[y].id == c.0.id
                        &&& cov@[y].external_ref == c.0.external_ref
                        &&& cov@[y].title == c.0.title
                        &&& cov@[y].link_type@ == crate::trace_model::link_type_name(c.1)
                    },
            decreases row.covering.len() - j,
        {
            let (n, lt) = &row.covering[j];
            cov.push(
                CoverRow {
                    id: n.id,
                    external_ref: n.external_ref.clone(),
                    title: n.title.clone(),
                    link_type: String::from_str(lt.as_str()),
                },
            );
            j = j + 1;
        }
        r.push(MatrixRowView { requirement: item_row(&row.requirement), covering: cov });
        i = i + 1;
    }
    r
}

} // verus!
