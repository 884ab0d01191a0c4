//! Schemes: the design-time definition of what data a kind of project
//! needs (scalar fields and tables with custom columns), and the
//! normalization that every written definition goes through.
use vstd::prelude::*;
use crate::error::ServiceError;
use crate::text::{is_blank, is_blank_seq, lemma_trim_idem, lemma_trim_no_ws_ends, str_eq, trim, trim_seq};

verus! {

/// A scheme as written (no ids).
pub struct SchemeSpec {
    pub name: String,
    pub description: String,
    pub fields: Vec<SchemeFieldSpec>,
    pub tables: Vec<SchemeTableSpec>,
}

/// A scalar field; `doc_kind` `project` = shared by the whole project.
pub struct SchemeFieldSpec {
    pub doc_kind: String,
    pub field_key: String,
    pub label: String,
    pub sort_key: i32,
}

pub struct SchemeTableSpec {
    pub table_key: String,
    pub label: String,
    pub sort_key: i32,
    pub columns: Vec<SchemeColumnSpec>,
}

pub struct SchemeColumnSpec {
    pub column_key: String,
    pub label: String,
    pub sort_key: i32,
}

pub struct FieldSpecV {
    pub doc_kind: Seq<char>,
    pub field_key: Seq<char>,
    pub label: Seq<char>,
    pub sort_key: i32,
}

pub struct ColumnSpecV {
    pub column_key: Seq<char>,
    pub label: Seq<char>,
    pub sort_key: i32,
}

pub struct TableSpecV {
    pub table_key: Seq<char>,
    pub label: Seq<char>,
    pub sort_key: i32,
    pub columns: Seq<ColumnSpecV>,
}

pub struct SchemeSpecV {
    pub name: Seq<char>,
    pub description: Seq<char>,
    pub fields: Seq<FieldSpecV>,
    pub tables: Seq<TableSpecV>,
}

impl View for SchemeFieldSpec {
    type V = FieldSpecV;

    open spec fn view(&self) -> FieldSpecV {
        FieldSpecV {
            doc_kind: self.doc_kind@,
            field_key: self.field_key@,
            label: self.label@,
            sort_key: self.sort_key,
        }
    }
}

impl View for SchemeColumnSpec {
    type V = ColumnSpecV;

    open spec fn view(&self) -> ColumnSpecV {
        ColumnSpecV { column_key: self.column_key@, label: self.label@, sort_key: self.sort_key }
    }
}

impl View for SchemeTableSpec {
    type V = TableSpecV;

    open spec fn view(&self) -> TableSpecV {
        TableSpecV {
            table_key: self.table_key@,
            label: self.label@,
            sort_key: self.sort_key,
            columns: self.columns@.map_values(|c: SchemeColumnSpec| c@),
        }
    }
}

impl View for SchemeSpec {
    type V = SchemeSpecV;

    open spec fn view(&self) -> SchemeSpecV {
        SchemeSpecV {
            name: self.name@,
            description: self.description@,
            fields: self.fields@.map_values(|f: SchemeFieldSpec| f@),
            tables: self.tables@.map_values(|t: SchemeTableSpec| t@),
        }
    }
}

/// A blank label falls back to the key; otherwise it is trimmed.
pub open spec fn norm_label(label: Seq<char>, key: Seq<char>) -> Seq<char> {
    if is_blank_seq(label) {
        key
    } else {
        trim_seq(label)
    }
}

/// A blank doc kind falls back to `project`; otherwise it is trimmed.
pub open spec fn norm_doc_kind(dk: Seq<char>) -> Seq<char> {
    if trim_seq(dk).len() == 0 {
        "project"@
    } else {
        trim_seq(dk)
    }
}

pub open spec fn norm_field(f: FieldSpecV) -> FieldSpecV {
    let key = trim_seq(f.field_key);
    FieldSpecV {
        doc_kind: norm_doc_kind(f.doc_kind),
        field_key: key,
        label: norm_label(f.label, key),
        sort_key: f.sort_key,
    }
}

/// The normalized fields, or the message of the first problem: an empty key,
/// or a `(doc_kind, field_key)` pair seen before.
pub open spec fn norm_fields(fs: Seq<FieldSpecV>) -> Result<Seq<FieldSpecV>, Seq<char>>
    decreases fs.len(),
{
    if fs.len() == 0 {
        Ok(Seq::empty())
    } else {
        match norm_fields(fs.drop_last()) {
            Err(m) => Err(m),
            Ok(prev) => {
                let f = norm_field(fs.last());
                if f.field_key.len() == 0 {
                    Err("scheme field_key must not be empty"@)
                } else if exists|i: int|
                    0 <= i < prev.len() && #[trigger] prev[i].doc_kind == f.doc_kind
                        && prev[i].field_key == f.field_key {
                    Err("duplicate scheme field ("@ + f.doc_kind + ", "@ + f.field_key + ")"@)
                } else {
                    Ok(prev.push(f))
                }
            },
        }
    }
}

/// The normalized columns of table `t`, or the message of the first problem.
pub open spec fn norm_columns(t: Seq<char>, cs: Seq<ColumnSpecV>) -> Result<Seq<ColumnSpecV>, Seq<char>>
    decreases cs.len(),
{
    if cs.len() == 0 {
        Ok(Seq::empty())
    } else {
        match norm_columns(t, cs.drop_last()) {
            Err(m) => Err(m),
            Ok(prev) => {
                let c = cs.last();
                let key = trim_seq(c.column_key);
                if key.len() == 0 {
                    Err("column key in table "@ + t + " must not be empty"@)
                } else if exists|i: int| 0 <= i < prev.len() && #[trigger] prev[i].column_key == key {
                    Err("duplicate column "@ + key + " in table "@ + t)
                } else {
                    Ok(
                        prev.push(
                            ColumnSpecV {
                                column_key: key,
                                label: norm_label(c.label, key),
                                sort_key: c.sort_key,
                            },
                        ),
                    )
                }
            },
        }
    }
}

/// The normalized tables, or the message of the first problem.
pub open spec fn norm_tables(ts: Seq<TableSpecV>) -> Result<Seq<TableSpecV>, Seq<char>>
    decreases ts.len(),
{
    if ts.len() == 0 {
        Ok(Seq::empty())
    } else {
        match norm_tables(ts.drop_last()) {
            Err(m) => Err(m),
            Ok(prev) => {
                let t = ts.last();
                let key = trim_seq(t.table_key);
                if key.len() == 0 {
                    Err("scheme table_key must not be empty"@)
                } else if exists|i: int| 0 <= i < prev.len() && #[trigger] prev[i].table_key == key {
                    Err("duplicate scheme table: "@ + key)
                } else {
                    match norm_columns(key, t.columns) {
                        Err(m) => Err(m),
                        Ok(cols) => Ok(
                            prev.push(
                                TableSpecV {
                                    table_key: key,
                                    label: norm_label(t.label, key),
                                    sort_key: t.sort_key,
                                    columns: cols,
                                },
                            ),
                        ),
                    }
                }
            },
        }
    }
}

/// What `normalize` gives back: the normalized definition, or the message
/// of the validation error it stops on.
pub open spec fn normalize_spec(s: SchemeSpecV) -> Result<SchemeSpecV, Seq<char>> {
    let name = trim_seq(s.name);
    if name.len() == 0 {
        Err("scheme name must not be empty"@)
    } else {
        match norm_fields(s.fields) {
            Err(m) => Err(m),
            Ok(fields) => match norm_tables(s.tables) {
                Err(m) => Err(m),
                Ok(tables) => Ok(
                    SchemeSpecV {
                        name,
                        description: trim_seq(s.description),
                        fields,
                        tables,
                    },
                ),
            },
        }
    }
}

/// Once a prefix of the fields fails, the whole list fails with the same message.
proof fn lemma_fields_err_sticks(s: Seq<FieldSpecV>, k: int, m: Seq<char>)
    requires
        0 <= k <= s.len(),
        norm_fields(s.take(k)) == Err::<Seq<FieldSpecV>, Seq<char>>(m),
    ensures
        norm_fields(s) == Err::<Seq<FieldSpecV>, Seq<char>>(m),
    decreases s.len() - k,
{
    if k < s.len() {
        assert(s.take(k + 1).drop_last() =~= s.take(k));
        lemma_fields_err_sticks(s, k + 1, m);
    } else {
        assert(s.take(k) =~= s);
    }
}

/// Once a prefix of the columns fails, the whole list fails with the same message.
proof fn lemma_columns_err_sticks(t: Seq<char>, s: Seq<ColumnSpecV>, k: int, m: Seq<char>)
    requires
        0 <= k <= s.len(),
        norm_columns(t, s.take(k)) == Err::<Seq<ColumnSpecV>, Seq<char>>(m),
    ensures
        norm_columns(t, s) == Err::<Seq<ColumnSpecV>, Seq<char>>(m),
    decreases s.len() - k,
{
    if k < s.len() {
        assert(s.take(k + 1).drop_last() =~= s.take(k));
        lemma_columns_err_sticks(t, s, k + 1, m);
    } else {
        assert(s.take(k) =~= s);
    }
}

/// Once a prefix of the tables fails, the whole list fails with the same message.
proof fn lemma_tables_err_sticks(s: Seq<TableSpecV>, k: int, m: Seq<char>)
    requires
        0 <= k <= s.len(),
        norm_tables(s.take(k)) == Err::<Seq<TableSpecV>, Seq<char>>(m),
    ensures
        norm_tables(s) == Err::<Seq<TableSpecV>, Seq<char>>(m),
    decreases s.len() - k,
{
    if k < s.len() {
        assert(s.take(k + 1).drop_last() =~= s.take(k));
        lemma_tables_err_sticks(s, k + 1, m);
    } else {
        assert(s.take(k) =~= s);
    }
}

proof fn lemma_tables_dup(s: Seq<TableSpecV>, prev: Seq<TableSpecV>, key: Seq<char>, j: int)
    requires
        s.len() > 0,
        norm_tables(s.drop_last()) == Ok::<Seq<TableSpecV>, Seq<char>>(prev),
        trim_seq(s.last().table_key) == key,
        key.len() > 0,
        0 <= j < prev.len(),
        prev[j].table_key == key,
    ensures
        norm_tables(s) == Err::<Seq<TableSpecV>, Seq<char>>("duplicate scheme table: "@ + key),
{
    assert(exists|m: int| 0 <= m < prev.len() && #[trigger] prev[m].table_key == key);
    let t = s.last();
    assert(trim_seq(t.table_key).len() != 0);
    assert(norm_tables(s) is Err);
}

proof fn lemma_norm_label_idem(label: Seq<char>, key: Seq<char>)
    requires
        trim_seq(key) == key,
    ensures
        norm_label(norm_label(label, key), key) == norm_label(label, key),
{
    lemma_trim_idem(label);
}

proof fn lemma_norm_doc_kind_idem(dk: Seq<char>)
    ensures
        norm_doc_kind(norm_doc_kind(dk)) == norm_doc_kind(dk),
{
    lemma_trim_idem(dk);
    reveal_strlit("project");
    assert("project"@[0] == 'p');
    lemma_trim_no_ws_ends("project"@);
}

proof fn lemma_norm_field_idem(f: FieldSpecV)
    ensures
        norm_field(norm_field(f)) == norm_field(f),
{
    lemma_trim_idem(f.field_key);
    lemma_norm_doc_kind_idem(f.doc_kind);
    lemma_norm_label_idem(f.label, trim_seq(f.field_key));
}

proof fn lemma_norm_fields_idem(fs: Seq<FieldSpecV>)
    ensures
        norm_fields(fs) matches Ok(out) ==> norm_fields(out) == Ok::<Seq<FieldSpecV>, Seq<char>>(out),
    decreases fs.len(),
{
    if fs.len() > 0 {
        lemma_norm_fields_idem(fs.drop_last());
        if let Ok(out) = norm_fields(fs) {
            let prev = norm_fields(fs.drop_last())->Ok_0;
            let f = norm_field(fs.last());
            assert(out == prev.push(f));
            assert(out.drop_last() =~= prev);
            lemma_norm_field_idem(fs.last());
            assert(norm_field(out.last()) == f);
        }
    }
}

proof fn lemma_norm_columns_idem(t: Seq<char>, cs: Seq<ColumnSpecV>)
    ensures
        norm_columns(t, cs) matches Ok(out) ==> norm_columns(t, out) == Ok::<Seq<ColumnSpecV>, Seq<char>>(
            out,
        ),
    decreases cs.len(),
{
    if cs.len() > 0 {
        lemma_norm_columns_idem(t, cs.drop_last());
        if let Ok(out) = norm_columns(t, cs) {
            let prev = norm_columns(t, cs.drop_last())->Ok_0;
            let c = cs.last();
            let key = trim_seq(c.column_key);
            lemma_trim_idem(c.column_key);
            lemma_norm_label_idem(c.label, key);
            assert(out.drop_last() =~= prev);
        }
    }
}

proof fn lemma_norm_tables_idem(ts: Seq<TableSpecV>)
    ensures
        norm_tables(ts) matches Ok(out) ==> norm_tables(out) == Ok::<Seq<TableSpecV>, Seq<char>>(out),
    decreases ts.len(),
{
    if ts.len() > 0 {
        lemma_norm_tables_idem(ts.drop_last());
        if let Ok(out) = norm_tables(ts) {
            let prev = norm_tables(ts.drop_last())->Ok_0;
            let t = ts.last();
            let key = trim_seq(t.table_key);
            lemma_trim_idem(t.table_key);
            lemma_norm_label_idem(t.label, key);
            lemma_norm_columns_idem(key, t.columns);
            assert(out.drop_last() =~= prev);
        }
    }
}

/// Normalizing a normalized definition gives it back: `normalize` never
/// rejects its own output, and its output is a fixed point.
pub proof fn law_normalize_fixed_point(s: SchemeSpecV)
    ensures
        normalize_spec(s) matches Ok(n) ==> normalize_spec(n) == Ok::<SchemeSpecV, Seq<char>>(n),
{
    lemma_trim_idem(s.name);
    lemma_trim_idem(s.description);
    lemma_norm_fields_idem(s.fields);
    lemma_norm_tables_idem(s.tables);
}

fn label_or_key(label: &String, key: &String) -> (r: String)
    ensures
        r@ == norm_label(label@, key@),
{
    if is_blank(label.as_str()) {
        key.clone()
    } else {
        trim(label.as_str())
    }
}

fn cat3(a: &str, b: &str, c: &str) -> (r: String)
    ensures
        r@ == a@ + b@ + c@,
{
    let mut r = String::from_str(a);
    r.append(b);
    r.append(c);
    r
}

fn validation(m: String) -> (r: ServiceError)
    ensures
        r is Validation,
        r.message() == m@,
{
    ServiceError::Validation(m)
}

fn normalize_fields(fs: &Vec<SchemeFieldSpec>) -> (r: Result<Vec<SchemeFieldSpec>, ServiceError>)
    ensures
        match r {
            Ok(v) => norm_fields(fs@.map_values(|f: SchemeFieldSpec| f@)) == Ok::<
                Seq<FieldSpecV>,
                Seq<char>,
            >(v@.map_values(|f: SchemeFieldSpec| f@)),
            Err(e) => e is Validation && norm_fields(fs@.map_values(|f: SchemeFieldSpec| f@))
                == Err::<Seq<FieldSpecV>, Seq<char>>(e.message()),
        },
{
    let ghost fv = fs@.map_values(|f: SchemeFieldSpec| f@);
    let mut out: Vec<SchemeFieldSpec> = Vec::new();
    let mut i: usize = 0;
    assert(fv.take(0) =~= Seq::<FieldSpecV>::empty());
    assert(out@.map_values(|f: SchemeFieldSpec| f@) =~= Seq::<FieldSpecV>::empty());
    while i < fs.len()
        invariant
            i <= fs@.len(),
            fv == fs@.map_values(|f: SchemeFieldSpec| f@),
            norm_fields(fv.take(i as int)) == Ok::<Seq<FieldSpecV>, Seq<char>>(
                out@.map_values(|f: SchemeFieldSpec| f@),
            ),
        decreases fs.len() - i,
    {
        let f = &fs[i];
        assert(fv.take(i + 1).drop_last() =~= fv.take(i as int));
        assert(fv.take(i + 1).last() == f@);
        let key = trim(f.field_key.as_str());
        if key.as_str().is_empty() {
            let e = validation(String::from_str("scheme field_key must not be empty"));
            proof {
                lemma_fields_err_sticks(fv, i + 1, e.message());
            }
            return Err(e);
        }
        let dk0 = trim(f.doc_kind.as_str());
        let dk = if dk0.as_str().is_empty() {
            String::from_str("project")
        } else {
            dk0
        };
        let label = label_or_key(&f.label, &key);
        let nf = SchemeFieldSpec { doc_kind: dk, field_key: key, label, sort_key: f.sort_key };
        assert(nf@ == norm_field(f@));
        let ghost prev = out@.map_values(|f: SchemeFieldSpec| f@);
        let mut j: usize = 0;
        while j < out.len()
            invariant
                j <= out@.len(),
                prev == out@.map_values(|f: SchemeFieldSpec| f@),
                i < fs@.len(),
                fv == fs@.map_values(|f: SchemeFieldSpec| f@),
                norm_fields(fv.take(i as int)) == Ok::<Seq<FieldSpecV>, Seq<char>>(prev),
                fv.take(i + 1).drop_last() == fv.take(i as int),
                fv.take(i + 1).len() == i + 1,
                norm_field(fv.take(i + 1).last()) == nf@,
                nf@.field_key.len() > 0,
                forall|m: int|
                    0 <= m < j ==> !(#[trigger] prev[m].doc_kind == nf@.doc_kind
                        && prev[m].field_key == nf@.field_key),
            decreases out.len() - j,
        {
            if str_eq(out[j].doc_kind.as_str(), nf.doc_kind.as_str()) && str_eq(
                out[j].field_key.as_str(),
                nf.field_key.as_str(),
            ) {
                assert(prev[j as int].doc_kind == nf@.doc_kind);
                assert(prev[j as int].field_key == nf@.field_key);
                let mut m = cat3("duplicate scheme field (", nf.doc_kind.as_str(), ", ");
                m.append(nf.field_key.as_str());
                m.append(")");
                let e = validation(m);
                proof {
                    assert(norm_fields(fv.take(i + 1)) == Err::<Seq<FieldSpecV>, Seq<char>>(
                        e.message(),
                    ));
                    lemma_fields_err_sticks(fv, i + 1, e.message());
                }
                return Err(e);
            }
            j = j + 1;
        }
        out.push(nf);
        assert(out@.map_values(|f: SchemeFieldSpec| f@) =~= prev.push(nf@));
        i = i + 1;
    }
    assert(fv.take(fs@.len() as int) =~= fv);
    Ok(out)
}

fn normalize_columns(t: &String, cs: &Vec<SchemeColumnSpec>) -> (r: Result<
    Vec<SchemeColumnSpec>,
    ServiceError,
>)
    ensures
        match r {
            Ok(v) => norm_columns(t@, cs@.map_values(|c: SchemeColumnSpec| c@)) == Ok::<
                Seq<ColumnSpecV>,
                Seq<char>,
            >(v@.map_values(|c: SchemeColumnSpec| c@)),
            Err(e) => e is Validation && norm_columns(t@, cs@.map_values(|c: SchemeColumnSpec| c@))
                == Err::<Seq<ColumnSpecV>, Seq<char>>(e.message()),
        },
{
    let ghost cv = cs@.map_values(|c: SchemeColumnSpec| c@);
    let mut out: Vec<SchemeColumnSpec> = Vec::new();
    let mut i: usize = 0;
    assert(cv.take(0) =~= Seq::<ColumnSpecV>::empty());
    assert(out@.map_values(|c: SchemeColumnSpec| c@) =~= Seq::<ColumnSpecV>::empty());
    while i < cs.len()
        invariant
            i <= cs@.len(),
            cv == cs@.map_values(|c: SchemeColumnSpec| c@),
            norm_columns(t@, cv.take(i as int)) == Ok::<Seq<ColumnSpecV>, Seq<char>>(
                out@.map_values(|c: SchemeColumnSpec| c@),
            ),
        decreases cs.len() - i,
    {
        let c = &cs[i];
        assert(cv.take(i + 1).drop_last() =~= cv.take(i as int));
        assert(cv.take(i + 1).last() == c@);
        let key = trim(c.column_key.as_str());
        if key.as_str().is_empty() {
            let e = validation(cat3("column key in table ", t.as_str(), " must not be empty"));
            proof {
                lemma_columns_err_sticks(t@, cv, i + 1, e.message());
            }
            return Err(e);
        }
        let label = label_or_key(&c.label, &key);
        let nc = SchemeColumnSpec { column_key: key, label, sort_key: c.sort_key };
        let ghost prev = out@.map_values(|c: SchemeColumnSpec| c@);
        let mut j: usize = 0;
        while j < out.len()
            invariant
                j <= out@.len(),
                prev == out@.map_values(|c: SchemeColumnSpec| c@),
                i < cs@.len(),
                cv == cs@.map_values(|c: SchemeColumnSpec| c@),
                norm_columns(t@, cv.take(i as int)) == Ok::<Seq<ColumnSpecV>, Seq<char>>(prev),
                cv.take(i + 1).drop_last() == cv.take(i as int),
                cv.take(i + 1).len() == i + 1,
                cv.take(i + 1).last() == c@,
                nc@.column_key == trim_seq(c@.column_key),
                nc@.column_key.len() > 0,
                forall|m: int| 0 <= m < j ==> !(#[trigger] prev[m].column_key == nc@.column_key),
            decreases out.len() - j,
        {
            if str_eq(out[j].column_key.as_str(), nc.column_key.as_str()) {
                assert(prev[j as int].column_key == nc@.column_key);
                let mut m = cat3("duplicate column ", nc.column_key.as_str(), " in table ");
                m.append(t.as_str());
                let e = validation(m);
                proof {
                    assert(norm_columns(t@, cv.take(i + 1)) == Err::<Seq<ColumnSpecV>, Seq<char>>(
                        e.message(),
                    ));
                    lemma_columns_err_sticks(t@, cv, i + 1, e.message());
                }
                return Err(e);
            }
            j = j + 1;
        }
        out.push(nc);
        assert(out@.map_values(|c: SchemeColumnSpec| c@) =~= prev.push(nc@));
        i = i + 1;
    }
    assert(cv.take(cs@.len() as int) =~= cv);
    Ok(out)
}

fn normalize_tables(ts: &Vec<SchemeTableSpec>) -> (r: Result<Vec<SchemeTableSpec>, ServiceError>)
    ensures
        match r {
            Ok(v) => norm_tables(ts@.map_values(|t: SchemeTableSpec| t@)) == Ok::<
                Seq<TableSpecV>,
                Seq<char>,
            >(v@.map_values(|t: SchemeTableSpec| t@)),
            Err(e) => e is Validation && norm_tables(ts@.map_values(|t: SchemeTableSpec| t@))
                == Err::<Seq<TableSpecV>, Seq<char>>(e.message()),
        },
{
    let ghost tv = ts@.map_values(|t: SchemeTableSpec| t@);
    let mut out: Vec<SchemeTableSpec> = Vec::new();
    let mut i: usize = 0;
    assert(tv.take(0) =~= Seq::<TableSpecV>::empty());
    assert(out@.map_values(|t: SchemeTableSpec| t@) =~= Seq::<TableSpecV>::empty());
    while i < ts.len()
        invariant
            i <= ts@.len(),
            tv == ts@.map_values(|t: SchemeTableSpec| t@),
            norm_tables(tv.take(i as int)) == Ok::<Seq<TableSpecV>, Seq<char>>(
                out@.map_values(|t: SchemeTableSpec| t@),
            ),
        decreases ts.len() - i,
    {
        let t = &ts[i];
        assert(tv.take(i + 1).drop_last() =~= tv.take(i as int));
        assert(tv.take(i + 1).last() == t@);
        let key = trim(t.table_key.as_str());
        if key.as_str().is_empty() {
            let e = validation(String::from_str("scheme table_key must not be empty"));
            proof {
                lemma_tables_err_sticks(tv, i + 1, e.message());
            }
            return Err(e);
        }
        let label = label_or_key(&t.label, &key);
        let ghost prev = out@.map_values(|t: SchemeTableSpec| t@);
        let mut j: usize = 0;
        while j < out.len()
            invariant
                j <= out@.len(),
                prev == out@.map_values(|t: SchemeTableSpec| t@),
                i < ts@.len(),
                tv == ts@.map_values(|t: SchemeTableSpec| t@),
                norm_tables(tv.take(i as int)) == Ok::<Seq<TableSpecV>, Seq<char>>(prev),
                tv.take(i + 1).drop_last() == tv.take(i as int),
                tv.take(i + 1).len() == i + 1,
                tv.take(i + 1).last() == t@,
                key@ == trim_seq(t@.table_key),
                key@.len() > 0,
                forall|m: int| 0 <= m < j ==> !(#[trigger] prev[m].table_key == key@),
            decreases out.len() - j,
        {
            if str_eq(out[j].table_key.as_str(), key.as_str()) {
                assert(prev[j as int].table_key == key@);
                let mut m = String::from_str("duplicate scheme table: ");
                m.append(key.as_str());
                let e = validation(m);
                proof {
                    assert(e.message() == "duplicate scheme table: "@ + key@);
                    lemma_tables_dup(tv.take(i + 1), prev, key@, j as int);
                    lemma_tables_err_sticks(tv, i + 1, e.message());
                }
                return Err(e);
            }
            j = j + 1;
        }
        let cols = match normalize_columns(&key, &t.columns) {
            Ok(c) => c,
            Err(e) => {
                proof {
                    lemma_tables_err_sticks(tv, i + 1, e.message());
                }
                return Err(e);
            },
        };
        let nt = SchemeTableSpec { table_key: key, label, sort_key: t.sort_key, columns: cols };
        out.push(nt);
        assert(out@.map_values(|t: SchemeTableSpec| t@) =~= prev.push(nt@));
        i = i + 1;
    }
    assert(tv.take(ts@.len() as int) =~= tv);
    Ok(out)
}

/// Normalizes a written scheme: trims the name, description and keys; a
/// blank label becomes its key, a blank doc kind becomes `project`; rejects
/// (Validation) an empty name or key and a repeated `(doc_kind, field_key)`,
/// table key or column key within its table — the first problem in
/// definition order is the one reported.
pub fn normalize(spec: SchemeSpec) -> (r: Result<SchemeSpec, ServiceError>)
    ensures
        match r {
            Ok(s) => normalize_spec(spec@) == Ok::<SchemeSpecV, Seq<char>>(s@),
            Err(e) => e is Validation && normalize_spec(spec@) == Err::<SchemeSpecV, Seq<char>>(
                e.message(),
            ),
        },
{
    let name = trim(spec.name.as_str());
    if name.as_str().is_empty() {
        return Err(validation(String::from_str("scheme name must not be empty")));
    }
    let description = trim(spec.description.as_str());
    let fields = match normalize_fields(&spec.fields) {
        Ok(f) => f,
        Err(e) => {
            return Err(e);
        },
    };
    let tables = match normalize_tables(&spec.tables) {
        Ok(t) => t,
        Err(e) => {
            return Err(e);
        },
    };
    Ok(SchemeSpec { name, description, fields, tables })
}

} // verus!
