use mbse_testlib::assembly::{matrix_rows, table_projection, table_value, test_item_rows, view_field};
use mbse_testlib::projectdata::{DataColumn, DataField, DataRow, DataTable, ProjectDataView};
use mbse_testlib::trace_model::{LinkType, TraceNode, TraceNodeKind};
use mbse_testlib::trace_views::{TraceMatrix, TraceMatrixRow};

fn uuid(s: &str) -> u128 {
    uuid::Uuid::parse_str(s).unwrap().as_u128()
}

fn field(doc_kind: &str, key: &str, label: &str, value: &str) -> DataField {
    DataField {
        id: uuid::Uuid::new_v4().as_u128(),
        doc_kind: doc_kind.into(),
        field_key: key.into(),
        label: label.into(),
        value: value.into(),
    }
}

fn view_with(fields: Vec<DataField>, tables: Vec<DataTable>) -> ProjectDataView {
    ProjectDataView { project_id: 0, scheme_id: Some(0), fields, tables }
}

fn table(table_key: &str, rows: Vec<DataRow>) -> DataTable {
    DataTable {
        id: uuid::Uuid::new_v4().as_u128(),
        table_key: table_key.into(),
        label: table_key.into(),
        columns: vec![
            DataColumn { id: uuid::Uuid::new_v4().as_u128(), column_key: "party_kind".into(), label: "角色".into() },
            DataColumn { id: uuid::Uuid::new_v4().as_u128(), column_key: "name".into(), label: "单位名称".into() },
        ],
        rows,
    }
}

fn tnode_at(id: &str, kind: TraceNodeKind, title: &str, created_at: i64) -> TraceNode {
    let mut n = TraceNode::new(kind, "test".into(), id.into(), Some("模块A".into()), title.into(), None);
    n.id = uuid(id);
    n.project_id = 0;
    n.created_at = created_at;
    n.updated_at = created_at;
    n
}

fn tnode(id: &str, kind: TraceNodeKind, title: &str) -> TraceNode {
    tnode_at(id, kind, title, 1_700_000_000_000_000)
}

fn cell<'a>(row: &'a [(String, String)], key: &str) -> &'a str {
    row.iter().find(|(k, _)| k == key).map(|(_, v)| v.as_str()).unwrap()
}

#[test]
fn matrix_rows_projects_requirement_and_covering() {
    let req = tnode("10000000-0000-0000-0000-000000000001", TraceNodeKind::SoftwareRequirement, "软件需求1");
    let item = tnode("20000000-0000-0000-0000-000000000002", TraceNodeKind::TestItem, "测试项1");
    let matrix = TraceMatrix {
        rows: vec![TraceMatrixRow { requirement: req.clone(), covering: vec![(item.clone(), LinkType::DerivesFrom)] }],
    };
    let rows = matrix_rows(&matrix);
    assert_eq!(rows.len(), 1);
    assert_eq!(rows[0].requirement.title, "软件需求1");
    assert_eq!(rows[0].covering[0].title, "测试项1");
    assert_eq!(rows[0].covering[0].link_type, "derives_from");
}

#[test]
fn test_item_rows_filters_and_sorts() {
    let t0 = 1_700_000_000_000_000i64;
    let nodes = vec![
        tnode("10000000-0000-0000-0000-00000000000a", TraceNodeKind::SoftwareRequirement, "需求"),
        tnode_at("10000000-0000-0000-0000-00000000000b", TraceNodeKind::TestItem, "测试项B", t0 + 5_000_000),
        tnode_at("10000000-0000-0000-0000-00000000000c", TraceNodeKind::TestItem, "测试项A", t0),
    ];
    let rows = test_item_rows(&nodes);
    assert_eq!(rows.len(), 2);
    assert_eq!(rows[0].title, "测试项A");
    assert_eq!(rows[1].title, "测试项B");
}

#[test]
fn test_item_rows_breaks_time_ties_by_id() {
    let t0 = 1_700_000_000_000_000i64;
    let nodes = vec![
        tnode_at("10000000-0000-0000-0000-0000000000f2", TraceNodeKind::TestItem, "二", t0),
        tnode_at("10000000-0000-0000-0000-0000000000f1", TraceNodeKind::TestItem, "一", t0),
        tnode_at("10000000-0000-0000-0000-0000000000f3", TraceNodeKind::TestCase, "用例", t0),
    ];
    let rows = test_item_rows(&nodes);
    assert_eq!(rows.len(), 2);
    assert_eq!(rows[0].title, "一");
    assert_eq!(rows[1].title, "二");
    assert_eq!(rows[0].module.as_deref(), Some("模块A"));
}

#[test]
fn view_field_scope_fallbacks() {
    let view = view_with(
        vec![field("project", "软件名称", "软件名称", "XXX系统"), field("大纲", "文档标识", "文档标识", "RT-FTC")],
        vec![],
    );
    assert_eq!(view_field("软件名称", None, "大纲", &view), Some("XXX系统".into()));
    assert_eq!(view_field("文档标识", None, "大纲", &view), Some("RT-FTC".into()));
    assert_eq!(view_field("文档标识", Some("大纲"), "project", &view), Some("RT-FTC".into()));
    assert_eq!(view_field("没有的", None, "大纲", &view), None);
}

#[test]
fn view_field_prefers_explicit_scope_then_document_class() {
    let view = view_with(
        vec![
            field("project", "k", "k", "P"),
            field("报告", "k", "k", "R"),
            field("大纲", "k", "k", "O"),
        ],
        vec![],
    );
    assert_eq!(view_field("k", Some("报告"), "大纲", &view), Some("R".into()));
    assert_eq!(view_field("k", None, "大纲", &view), Some("O".into()));
    assert_eq!(view_field("k", Some(""), "大纲", &view), Some("O".into()));
    assert_eq!(view_field("k", Some("project"), "报告", &view), Some("R".into()));
    assert_eq!(view_field("k", Some("无"), "project", &view), Some("P".into()));
}

#[test]
fn table_projection_emits_columns_and_filtered_rows() {
    let cells = vec![("party_kind".to_string(), "委托方".to_string()), ("name".to_string(), "甲方".to_string())];
    let cells2 = vec![("party_kind".to_string(), "测评机构".to_string()), ("name".to_string(), "乙方".to_string())];
    let t = table("parties", vec![DataRow { row_index: 0, cells }, DataRow { row_index: 1, cells: cells2 }]);

    let v = table_projection(&t, None, None);
    assert_eq!(v.columns.len(), 2);
    assert_eq!(v.rows.len(), 2);
    assert_eq!(cell(&v.rows[0], "name"), "甲方");

    let v2 = table_projection(&t, Some("测评机构"), None);
    assert_eq!(v2.rows.len(), 1);
    assert_eq!(cell(&v2.rows[0], "party_kind"), "测评机构");

    let empty = table_value(&view_with(vec![], vec![t]), "nope", None, None);
    assert_eq!(empty.columns.len(), 0);
    assert_eq!(empty.rows.len(), 0);
}

#[test]
fn table_projection_sorts_rows_and_fills_missing_cells() {
    let rows = vec![
        DataRow { row_index: 2, cells: vec![("name".into(), "丙".into())] },
        DataRow { row_index: 0, cells: vec![("name".into(), "甲".into()), ("category".into(), "A".into())] },
        DataRow { row_index: 1, cells: vec![("extra".into(), "x".into())] },
    ];
    let t = table("t", rows);
    let v = table_projection(&t, None, None);
    assert_eq!(v.columns[0], ("party_kind".to_string(), "角色".to_string()));
    assert_eq!(v.rows.len(), 3);
    assert_eq!(cell(&v.rows[0], "name"), "甲");
    assert_eq!(cell(&v.rows[1], "name"), "");
    assert_eq!(cell(&v.rows[2], "name"), "丙");
    assert_eq!(v.rows[1].len(), 2);
    let by_cat = table_projection(&t, None, Some("A"));
    assert_eq!(by_cat.rows.len(), 1);
    let empty_filter = table_projection(&t, Some(""), Some(""));
    assert_eq!(empty_filter.rows.len(), 3);
    let found = table_value(&view_with(vec![], vec![t]), "t", None, Some("A"));
    assert_eq!(found.rows.len(), 1);
}
