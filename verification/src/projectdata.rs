//! Project data: the values a project filled in, one set per project and
//! shared by all its documents. The structure (which fields and tables exist)
//! comes from the scheme the project is bound to; the values refer to the
//! scheme's field and table ids. A table row's cells map column keys to text;
//! a missing key is an empty cell.
use vstd::prelude::*;
use crate::error::ServiceError;
use crate::text::{str_eq, strs_view, trim, trim_seq};

verus! {

/// A scalar field value, with the structure the scheme gives it.
pub struct DataField {
    pub id: u128,
    pub doc_kind: String,
    pub field_key: String,
    pub label: String,
    pub value: String,
}

/// A column (for the header).
pub struct DataColumn {
    pub id: u128,
    pub column_key: String,
    pub label: String,
}

/// A row: `(column_key, text)` cells, each key at most once.
pub struct DataRow {
    pub row_index: i32,
    pub cells: Vec<(String, String)>,
}

/// A table: columns (structure) and rows (values).
pub struct DataTable {
    pub id: u128,
    pub table_key: String,
    pub label: String,
    pub columns: Vec<DataColumn>,
    pub rows: Vec<DataRow>,
}

/// The structure of the bound scheme merged with the project's values.
pub struct ProjectDataView {
    pub project_id: u128,
    pub scheme_id: Option<u128>,
    pub fields: Vec<DataField>,
    pub tables: Vec<DataTable>,
}

/// A written field value.
pub struct FieldValueWrite {
    pub field_id: u128,
    pub value: String,
}

/// The written rows of one table.
pub struct TableRowsWrite {
    pub table_id: u128,
    pub rows: Vec<DataRow>,
}

/// A whole replacement of a project's data.
pub struct ProjectDataWrite {
    pub fields: Vec<FieldValueWrite>,
    pub tables: Vec<TableRowsWrite>,
}

/// The text of the cell `key` (the first pair with that key).
pub open spec fn cell_get(cells: Seq<(String, String)>, key: Seq<char>) -> Option<Seq<char>>
    decreases cells.len(),
{
    if cells.len() == 0 {
        None
    } else if cells[0].0@ == key {
        Some(cells[0].1@)
    } else {
        cell_get(cells.drop_first(), key)
    }
}

/// The cells kept by a write: those whose key is a column of the table and
/// whose trimmed text is not empty, trimmed.
pub open spec fn kept_cells(cells: Seq<(String, String)>, cols: Seq<Seq<char>>) -> Seq<
    (Seq<char>, Seq<char>),
>
    decreases cells.len(),
{
    if cells.len() == 0 {
        Seq::empty()
    } else {
        let rest = kept_cells(cells.drop_last(), cols);
        let c = cells.last();
        if cols.contains(c.0@) && trim_seq(c.1@).len() > 0 {
            rest.push((c.0@, trim_seq(c.1@)))
        } else {
            rest
        }
    }
}

pub open spec fn cells_view(cells: Seq<(String, String)>) -> Seq<(Seq<char>, Seq<char>)> {
    cells.map_values(|c: (String, String)| (c.0@, c.1@))
}

/// Stable insertion of `x` into rows sorted by row index.
pub open spec fn insert_row(s: Seq<DataRow>, x: DataRow) -> Seq<DataRow>
    decreases s.len(),
{
    if s.len() == 0 {
        seq![x]
    } else if s.last().row_index <= x.row_index {
        s.push(x)
    } else {
        insert_row(s.drop_last(), x).push(s.last())
    }
}

/// The rows stably sorted by row index (`sort_by_key(row_index)`).
pub open spec fn sort_rows(s: Seq<DataRow>) -> Seq<DataRow>
    decreases s.len(),
{
    if s.len() == 0 {
        Seq::empty()
    } else {
        insert_row(sort_rows(s.drop_last()), s.last())
    }
}

pub proof fn lemma_insert_row_len(s: Seq<DataRow>, x: DataRow)
    ensures
        insert_row(s, x).len() == s.len() + 1,
    decreases s.len(),
{
    if s.len() > 0 && s.last().row_index > x.row_index {
        lemma_insert_row_len(s.drop_last(), x);
    }
}

pub proof fn lemma_sort_rows_len(s: Seq<DataRow>)
    ensures
        sort_rows(s).len() == s.len(),
    decreases s.len(),
{
    if s.len() > 0 {
        lemma_sort_rows_len(s.drop_last());
        lemma_insert_row_len(sort_rows(s.drop_last()), s.last());
    }
}

/// Two row sequences hold the same rows (indices and cells).
pub open spec fn same_rows(a: Seq<DataRow>, b: Seq<DataRow>) -> bool {
    &&& a.len() == b.len()
    &&& forall|i: int|
        #![trigger a[i]]
        0 <= i < a.len() ==> a[i].row_index == b[i].row_index && a[i].cells@ == b[i].cells@
}

pub proof fn lemma_insert_row_same(s: Seq<DataRow>, t: Seq<DataRow>, x: DataRow, y: DataRow)
    requires
        same_rows(s, t),
        x.row_index == y.row_index,
        x.cells@ == y.cells@,
    ensures
        same_rows(insert_row(s, x), insert_row(t, y)),
    decreases s.len(),
{
    if s.len() > 0 && s.last().row_index > x.row_index {
        assert(same_rows(s.drop_last(), t.drop_last())) by {
            assert forall|i: int| 0 <= i < s.drop_last().len() implies #[trigger] s.drop_last()[i].row_index
                == t.drop_last()[i].row_index && s.drop_last()[i].cells@ == t.drop_last()[i].cells@ by {
                assert(s.drop_last()[i] == s[i]);
                assert(t.drop_last()[i] == t[i]);
            }
        }
        lemma_insert_row_same(s.drop_last(), t.drop_last(), x, y);
        lemma_insert_row_len(s.drop_last(), x);
        lemma_insert_row_len(t.drop_last(), y);
        assert(s.last() == s[s.len() - 1]);
        assert(t.last() == t[t.len() - 1]);
    } else if s.len() > 0 {
        assert(t.last() == t[t.len() - 1]);
        assert(s.last() == s[s.len() - 1]);
    }
}

pub proof fn lemma_sort_rows_same(a: Seq<DataRow>, b: Seq<DataRow>)
    requires
        same_rows(a, b),
    ensures
        same_rows(sort_rows(a), sort_rows(b)),
    decreases a.len(),
{
    if a.len() > 0 {
        assert(same_rows(a.drop_last(), b.drop_last())) by {
            assert forall|i: int| 0 <= i < a.drop_last().len() implies #[trigger] a.drop_last()[i].row_index
                == b.drop_last()[i].row_index && a.drop_last()[i].cells@ == b.drop_last()[i].cells@ by {
                assert(a.drop_last()[i] == a[i]);
                assert(b.drop_last()[i] == b[i]);
            }
        }
        lemma_sort_rows_same(a.drop_last(), b.drop_last());
        assert(a.last() == a[a.len() - 1]);
        assert(b.last() == b[b.len() - 1]);
        lemma_insert_row_same(sort_rows(a.drop_last()), sort_rows(b.drop_last()), a.last(), b.last());
    }
}

/// A scheme field as the checks of a write see it.
pub struct FieldDef {
    pub id: u128,
}

/// A scheme table as the checks of a write see it: its id and column keys.
pub struct TableDef {
    pub id: u128,
    pub column_keys: Vec<String>,
}

pub open spec fn column_keys_view(t: TableDef) -> Seq<Seq<char>> {
    t.column_keys@.map_values(|k: String| k@)
}

/// The column keys of the first table def with id `id`, or none (no columns).
pub open spec fn table_cols(tables: Seq<TableDef>, id: u128) -> Option<Seq<Seq<char>>>
    decreases tables.len(),
{
    if tables.len() == 0 {
        None
    } else if tables[0].id == id {
        Some(column_keys_view(tables[0]))
    } else {
        table_cols(tables.drop_first(), id)
    }
}

/// The first written field whose id is not a field of the scheme.
pub open spec fn first_foreign_field(ws: Seq<FieldValueWrite>, defs: Seq<FieldDef>) -> Option<u128>
    decreases ws.len(),
{
    if ws.len() == 0 {
        None
    } else if !(exists|i: int| 0 <= i < defs.len() && #[trigger] defs[i].id == ws[0].field_id) {
        Some(ws[0].field_id)
    } else {
        first_foreign_field(ws.drop_first(), defs)
    }
}

/// The first written table whose id is not a table of the scheme.
pub open spec fn first_foreign_table(ws: Seq<TableRowsWrite>, defs: Seq<TableDef>) -> Option<u128>
    decreases ws.len(),
{
    if ws.len() == 0 {
        None
    } else if table_cols(defs, ws[0].table_id) is None {
        Some(ws[0].table_id)
    } else {
        first_foreign_table(ws.drop_first(), defs)
    }
}

/// The rows a write stores for a table with columns `cols`: stably sorted by
/// row index, renumbered from 0, cells kept as `kept_cells` says.
pub open spec fn normalized_rows(
    rows: Seq<DataRow>,
    cols: Seq<Seq<char>>,
    out: Seq<DataRow>,
) -> bool {
    let sorted = sort_rows(rows);
    &&& out.len() == sorted.len()
    &&& forall|i: int|
        #![trigger out[i]]
        0 <= i < out.len() ==> out[i].row_index == i as i32 && cells_view(out[i].cells@) == kept_cells(
            sorted[i].cells@,
            cols,
        )
}

/// The lowest `n` hexadecimal digits of `v`, most significant first, in
/// lower case, zero-padded.
pub open spec fn hex_fixed(v: nat, n: nat) -> Seq<char>
    decreases n,
{
    if n == 0 {
        Seq::empty()
    } else {
        hex_fixed(v / 16, (n - 1) as nat).push(crate::trace_items::hex_digit(v % 16))
    }
}

/// The hyphenated text of an id: its 32 lower-case hexadecimal digits, most
/// significant first, in groups of 8, 4, 4, 4 and 12 joined by `-`.
pub open spec fn uuid_text(id: u128) -> Seq<char> {
    let h = hex_fixed(id as nat, 32);
    h.subrange(0, 8) + seq!['-'] + h.subrange(8, 12) + seq!['-'] + h.subrange(12, 16) + seq!['-']
        + h.subrange(16, 20) + seq!['-'] + h.subrange(20, 32)
}

/// Calls `uuid::Uuid::from_u128(id).to_string()`: the `Display` of a `Uuid`
/// is its hyphenated lower-case form (`uuid_text`), the bytes of `from_u128`
/// being the id's bytes, most significant first.
#[verifier::external_body]
pub(crate) fn uuid_string(id: u128) -> (r: String)
    ensures
        r@ == uuid_text(id),
{
    uuid::Uuid::from_u128(id).to_string()
}

fn contains_key(keys: &Vec<String>, k: &String) -> (r: bool)
    ensures
        r == strs_view(keys@).contains(k@),
{
    let mut i: usize = 0;
    while i < keys.len()
        invariant
            i <= keys@.len(),
            forall|j: int| 0 <= j < i ==> keys@[j]@ != k@,
        decreases keys.len() - i,
    {
        if str_eq(keys[i].as_str(), k.as_str()) {
            assert(strs_view(keys@)[i as int] == k@);
            return true;
        }
        i = i + 1;
    }
    proof {
        if strs_view(keys@).contains(k@) {
            let j = choose|j: int|
                0 <= j < keys@.len() && #[trigger] strs_view(keys@)[j] == k@;
            assert(keys@[j]@ == k@);
        }
    }
    false
}

fn filter_cells(cells: &Vec<(String, String)>, cols: &Vec<String>) -> (r: Vec<(String, String)>)
    ensures
        cells_view(r@) == kept_cells(cells@, strs_view(cols@)),
{
    let ghost cv = strs_view(cols@);
    let mut r: Vec<(String, String)> = Vec::new();
    let mut i: usize = 0;
    while i < cells.len()
        invariant
            i <= cells@.len(),
            cv == strs_view(cols@),
            cells_view(r@) == kept_cells(cells@.take(i as int), cv),
        decreases cells.len() - i,
    {
        assert(cells@.take(i + 1).drop_last() =~= cells@.take(i as int));
        let (k, v) = &cells[i];
        if contains_key(cols, k) {
            let t = trim(v.as_str());
            if !t.as_str().is_empty() {
                let ghost before = r@;
                r.push((k.clone(), t));
                assert(cells_view(r@) =~= cells_view(before).push((k@, trim_seq(v@))));
            }
        }
        i = i + 1;
    }
    assert(cells@.take(cells@.len() as int) =~= cells@);
    r
}

fn clone_row(r: &DataRow) -> (c: DataRow)
    ensures
        c.row_index == r.row_index,
        c.cells@ == r.cells@,
{
    let mut cells: Vec<(String, String)> = Vec::new();
    let mut i: usize = 0;
    while i < r.cells.len()
        invariant
            i <= r.cells@.len(),
            cells@ == r.cells@.take(i as int),
        decreases r.cells.len() - i,
    {
        let (k, v) = &r.cells[i];
        cells.push((k.clone(), v.clone()));
        assert(cells@ =~= r.cells@.take(i + 1));
        i = i + 1;
    }
    assert(r.cells@.take(r.cells@.len() as int) =~= r.cells@);
    DataRow { row_index: r.row_index, cells }
}

/// Stable insertion sort of rows by row index.
pub fn sort_rows_exec(rows: &Vec<DataRow>) -> (r: Vec<DataRow>)
    ensures
        r@.len() == rows@.len(),
        r@.len() == sort_rows(rows@).len(),
        forall|i: int|
            #![trigger r@[i]]
            0 <= i < r@.len() ==> r@[i].row_index == sort_rows(rows@)[i].row_index
                && r@[i].cells@ == sort_rows(rows@)[i].cells@,
{
    let mut out: Vec<DataRow> = Vec::new();
    let mut i: usize = 0;
    assert(rows@.take(0) =~= Seq::<DataRow>::empty());
    while i < rows.len()
        invariant
            i <= rows@.len(),
            out@.len() == sort_rows(rows@.take(i as int)).len(),
            forall|j: int|
                #![trigger out@[j]]
                0 <= j < out@.len() ==> out@[j].row_index == sort_rows(rows@.take(i as int))[j].row_index
                    && out@[j].cells@ == sort_rows(rows@.take(i as int))[j].cells@,
        decreases rows.len() - i,
    {
        let x = clone_row(&rows[i]);
        assert(rows@.take(i + 1).drop_last() =~= rows@.take(i as int));
        let ghost s = sort_rows(rows@.take(i as int));
        let mut k = out.len();
        proof {
            assert(s.take(k as int) =~= s);
            assert(s.skip(k as int) =~= Seq::<DataRow>::empty());
            assert(insert_row(s, rows@[i as int]) + Seq::<DataRow>::empty() =~= insert_row(
                s,
                rows@[i as int],
            ));
        }
        while k > 0 && out[k - 1].row_index > x.row_index
            invariant
                k <= out@.len(),
                i < rows@.len(),
                x.row_index == rows@[i as int].row_index,
                out@.len() == s.len(),
                forall|j: int|
                    #![trigger out@[j]]
                    0 <= j < out@.len() ==> out@[j].row_index == s[j].row_index && out@[j].cells@
                        == s[j].cells@,
                forall|j: int| k <= j < out@.len() ==> s[j].row_index > x.row_index,
                insert_row(s, rows@[i as int]) == insert_row(s.take(k as int), rows@[i as int]) + s.skip(
                    k as int,
                ),
            decreases k,
        {
            proof {
                assert(s.take(k as int).drop_last() =~= s.take(k - 1));
                assert(s.take(k as int).last() == s[k - 1]);
                assert(s[k - 1].row_index > rows@[i as int].row_index);
                assert(insert_row(s.take(k as int), rows@[i as int]) == insert_row(
                    s.take(k - 1),
                    rows@[i as int],
                ).push(s[k - 1]));
                assert(s.skip(k - 1) =~= seq![s[k - 1]] + s.skip(k as int));
                assert(insert_row(s.take(k - 1), rows@[i as int]).push(s[k - 1]) + s.skip(k as int)
                    =~= insert_row(s.take(k - 1), rows@[i as int]) + s.skip(k - 1));
            }
            k = k - 1;
        }
        proof {
            if k > 0 {
                assert(s.take(k as int).last() == s[k - 1]);
            }
            assert(insert_row(s.take(k as int), rows@[i as int]) =~= s.take(k as int).push(rows@[i as int]));
        }
        out.insert(k, x);
        proof {
            let t = sort_rows(rows@.take(i + 1));
            assert(t == insert_row(s, rows@[i as int]));
            assert(t =~= s.take(k as int).push(rows@[i as int]) + s.skip(k as int));
            assert forall|j: int| 0 <= j < out@.len() implies out@[j].row_index == t[j].row_index
                && out@[j].cells@ == t[j].cells@ by {
                if j < k {
                    assert(t[j] == s[j]);
                } else if j > k {
                    assert(t[j] == s[j - 1]);
                }
            }
        }
        i = i + 1;
    }
    assert(rows@.take(rows@.len() as int) =~= rows@);
    proof {
        lemma_sort_rows_len(rows@);
    }
    out
}

/// Checks and normalizes a whole replacement against the bound scheme's
/// fields and tables: every field and table id must belong to the scheme
/// (Validation `field <id> does not belong to the project scheme`, resp.
/// `table <id> …`, for the first one that does not, fields first); each
/// table's rows are stably sorted by row index and renumbered from 0, and
/// their cells keep only the table's column keys, trimmed, empty ones dropped.
pub fn normalize_write(
    fields_def: &Vec<FieldDef>,
    tables_def: &Vec<TableDef>,
    write: ProjectDataWrite,
) -> (r: Result<ProjectDataWrite, ServiceError>)
    ensures
        match r {
            Ok(w) => {
                &&& first_foreign_field(write.fields@, fields_def@) is None
                &&& first_foreign_table(write.tables@, tables_def@) is None
                &&& w.fields@ == write.fields@
                &&& w.tables@.len() == write.tables@.len()
                &&& forall|i: int|
                    #![trigger w.tables@[i]]
                    0 <= i < w.tables@.len() ==> w.tables@[i].table_id == write.tables@[i].table_id
                        && normalized_rows(
                        write.tables@[i].rows@,
                        table_cols(tables_def@, write.tables@[i].table_id)->0,
                        w.tables@[i].rows@,
                    )
            },
            Err(e) => e is Validation && match first_foreign_field(write.fields@, fields_def@) {
                Some(id) => e.message() == "field "@ + uuid_text(id)
                    + " does not belong to the project scheme"@,
                None => match first_foreign_table(write.tables@, tables_def@) {
                    Some(id) => e.message() == "table "@ + uuid_text(id)
                        + " does not belong to the project scheme"@,
                    None => false,
                },
            },
        },
{
    let mut i: usize = 0;
    assert(write.fields@.skip(0) =~= write.fields@);
    while i < write.fields.len()
        invariant
            i <= write.fields@.len(),
            first_foreign_field(write.fields@, fields_def@) == first_foreign_field(
                write.fields@.skip(i as int),
                fields_def@,
            ),
        decreases write.fields.len() - i,
    {
        let id = write.fields[i].field_id;
        assert(write.fields@.skip(i as int)[0] == write.fields@[i as int]);
        assert(write.fields@.skip(i as int).drop_first() =~= write.fields@.skip(i + 1));
        let mut found = false;
        let mut j: usize = 0;
        while j < fields_def.len()
            invariant
                j <= fields_def@.len(),
                found == exists|x: int| 0 <= x < j && #[trigger] fields_def@[x].id == id,
            decreases fields_def.len() - j,
        {
            if fields_def[j].id == id {
                found = true;
            }
            j = j + 1;
        }
        if !found {
            let mut m = String::from_str("field ");
            let t = uuid_string(id);
            m.append(t.as_str());
            m.append(" does not belong to the project scheme");
            return Err(ServiceError::Validation(m));
        }
        i = i + 1;
    }
    assert(write.fields@.skip(write.fields@.len() as int) =~= Seq::<FieldValueWrite>::empty());
    let mut k: usize = 0;
    let mut cols_of: Vec<&Vec<String>> = Vec::new();
    assert(write.tables@.skip(0) =~= write.tables@);
    while k < write.tables.len()
        invariant
            first_foreign_field(write.fields@, fields_def@) is None,
            k <= write.tables@.len(),
            first_foreign_table(write.tables@, tables_def@) == first_foreign_table(
                write.tables@.skip(k as int),
                tables_def@,
            ),
            cols_of@.len() == k,
            forall|x: int|
                0 <= x < k ==> table_cols(tables_def@, #[trigger] write.tables@[x].table_id)
                    == Some(strs_view(cols_of@[x]@)),
        decreases write.tables.len() - k,
    {
        let id = write.tables[k].table_id;
        assert(write.tables@.skip(k as int)[0] == write.tables@[k as int]);
        assert(write.tables@.skip(k as int).drop_first() =~= write.tables@.skip(k + 1));
        let mut j: usize = 0;
        let mut hit: Option<&Vec<String>> = None;
        assert(tables_def@.skip(0) =~= tables_def@);
        while j < tables_def.len()
            invariant
                j <= tables_def@.len(),
                table_cols(tables_def@, id) == match hit {
                    Some(c) => Some(strs_view(c@)),
                    None => table_cols(tables_def@.skip(j as int), id),
                },
            decreases tables_def.len() - j,
        {
            if hit.is_none() {
                assert(tables_def@.skip(j as int)[0] == tables_def@[j as int]);
                assert(tables_def@.skip(j as int).drop_first() =~= tables_def@.skip(j + 1));
                if tables_def[j].id == id {
                    hit = Some(&tables_def[j].column_keys);
                }
            }
            j = j + 1;
        }
        assert(tables_def@.skip(tables_def@.len() as int) =~= Seq::<TableDef>::empty());
        match hit {
            None => {
                let mut m = String::from_str("table ");
                let t = uuid_string(id);
                m.append(t.as_str());
                m.append(" does not belong to the project scheme");
                return Err(ServiceError::Validation(m));
            },
            Some(c) => {
                cols_of.push(c);
            },
        }
        k = k + 1;
    }
    let mut tables: Vec<TableRowsWrite> = Vec::new();
    let mut k: usize = 0;
    while k < write.tables.len()
        invariant
            k <= write.tables@.len(),
            cols_of@.len() == write.tables@.len(),
            forall|x: int|
                0 <= x < write.tables@.len() ==> table_cols(
                    tables_def@,
                    #[trigger] write.tables@[x].table_id,
                ) == Some(strs_view(cols_of@[x]@)),
            tables@.len() == k,
            forall|i: int|
                #![trigger tables@[i]]
                0 <= i < k ==> tables@[i].table_id == write.tables@[i].table_id && normalized_rows(
                    write.tables@[i].rows@,
                    table_cols(tables_def@, write.tables@[i].table_id)->0,
                    tables@[i].rows@,
                ),
        decreases write.tables.len() - k,
    {
        let t = &write.tables[k];
        let cols = cols_of[k];
        let sorted = sort_rows_exec(&t.rows);
        let ghost ss = sort_rows(t.rows@);
        proof {
            lemma_sort_rows_len(t.rows@);
        }
        let mut rows: Vec<DataRow> = Vec::new();
        let mut i: usize = 0;
        while i < sorted.len()
            invariant
                i <= sorted@.len(),
                sorted@.len() == ss.len(),
                forall|j: int|
                    #![trigger sorted@[j]]
                    0 <= j < sorted@.len() ==> sorted@[j].cells@ == ss[j].cells@,
                rows@.len() == i,
                forall|j: int|
                    #![trigger rows@[j]]
                    0 <= j < i ==> rows@[j].row_index == j as i32 && cells_view(rows@[j].cells@)
                        == kept_cells(ss[j].cells@, strs_view(cols@)),
            decreases sorted.len() - i,
        {
            let cells = filter_cells(&sorted[i].cells, cols);
            assert(sorted@[i as int].cells@ == ss[i as int].cells@);
            rows.push(DataRow { row_index: i as i32, cells });
            i = i + 1;
        }
        tables.push(TableRowsWrite { table_id: t.table_id, rows });
        k = k + 1;
    }
    Ok(ProjectDataWrite { fields: write.fields, tables })
}

} // verus!
