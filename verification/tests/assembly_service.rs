use mbse_testlib::assembly::TraceValue;
use mbse_testlib::assembly_service::{AssemblyService, BlockValue};
use mbse_testlib::content::{BlockKind, ContentSpec};
use mbse_testlib::document_model::TemplateNodeType;
use mbse_testlib::document_service::DocumentService;
use mbse_testlib::error::ServiceError;
use mbse_testlib::execution_service::ExecutionService;
use mbse_testlib::project_service::{ProjectDataService, ProjectService};
use mbse_testlib::projectdata::{DataRow, FieldValueWrite, ProjectDataWrite, TableRowsWrite};
use mbse_testlib::scheme::{SchemeColumnSpec, SchemeFieldSpec, SchemeSpec, SchemeTableSpec};
use mbse_testlib::scheme_service::SchemeService;
use mbse_testlib::trace_model::{LinkType, TraceNodeKind};
use mbse_testlib::trace_service::TraceService;

fn ok<T>(r: Result<T, ServiceError>) -> T {
    match r {
        Ok(v) => v,
        Err(e) => panic!("unexpected error: {e:?}"),
    }
}

fn obj(pairs: &[(&str, &str)]) -> serde_json::Value {
    let mut m = serde_json::Map::new();
    for (k, v) in pairs {
        m.insert((*k).to_string(), serde_json::Value::String((*v).to_string()));
    }
    serde_json::Value::Object(m)
}

fn s(v: &serde_json::Value, k: &str) -> Option<String> {
    v.get(k).and_then(|x| x.as_str()).map(|x| x.to_string())
}

fn parse(v: &serde_json::Value) -> Option<ContentSpec> {
    match s(v, "kind")?.as_str() {
        "text" => Some(ContentSpec::Text { text: s(v, "text")? }),
        "field" => Some(ContentSpec::Field { field: s(v, "field")?, doc_kind: s(v, "doc_kind") }),
        "table" => Some(ContentSpec::Table { source: s(v, "source")?, party_kind: s(v, "party_kind"), category: s(v, "category") }),
        "trace" => Some(ContentSpec::Trace { view: s(v, "view")? }),
        "slot" => Some(ContentSpec::Slot { placeholder: s(v, "placeholder")?, role: s(v, "role") }),
        _ => None,
    }
}

struct World {
    docs: DocumentService,
    trace: TraceService,
    exec: ExecutionService,
    data: ProjectDataService,
    projects: ProjectService,
    schemes: SchemeService,
    project: u128,
    template: u128,
    slot_node: u128,
}

fn world() -> World {
    let mut schemes = SchemeService::new();
    let full = ok(schemes.create(SchemeSpec {
        name: "大纲测评".into(),
        description: String::new(),
        fields: vec![SchemeFieldSpec { doc_kind: "project".into(), field_key: "软件名称".into(), label: String::new(), sort_key: 0 }],
        tables: vec![SchemeTableSpec {
            table_key: "parties".into(),
            label: "相关方".into(),
            sort_key: 0,
            columns: vec![
                SchemeColumnSpec { column_key: "party_kind".into(), label: "角色".into(), sort_key: 0 },
                SchemeColumnSpec { column_key: "name".into(), label: "名称".into(), sort_key: 1 },
            ],
        }],
    }));
    let mut projects = ProjectService::new();
    let p = ok(projects.create("项目".into(), Some(full.scheme.id), &schemes));
    let mut data = ProjectDataService::new();
    ok(data.replace(
        p.id,
        ProjectDataWrite {
            fields: vec![FieldValueWrite { field_id: full.fields[0].id, value: "XXX系统".into() }],
            tables: vec![TableRowsWrite {
                table_id: full.tables[0].table.id,
                rows: vec![
                    DataRow { row_index: 0, cells: vec![("party_kind".into(), "委托方".into()), ("name".into(), "甲方".into())] },
                    DataRow { row_index: 1, cells: vec![("party_kind".into(), "测评机构".into()), ("name".into(), "乙方".into())] },
                ],
            }],
        },
        &projects,
        &schemes,
    ));

    let mut trace = TraceService::new();
    let sr = ok(trace.create_node(p.id, TraceNodeKind::SoftwareRequirement, "el".into(), "SR1".into(), None, "需求1".into(), None));
    let ti = ok(trace.create_node(p.id, TraceNodeKind::TestItem, "el".into(), "TI1".into(), None, "测项1".into(), None));
    ok(trace.create_link(p.id, ti.id, sr.id, LinkType::DerivesFrom));

    let mut docs = DocumentService::new();
    let tpl = ok(docs.create_template("大纲".into(), "大纲".into(), None));
    let ch = ok(docs.create_node(tpl.id, TemplateNodeType::Chapter, "第1章".into(), None, Some(0)));
    let text = ok(docs.create_node(tpl.id, TemplateNodeType::Paragraph, "正文".into(), Some(obj(&[("kind", "text"), ("text", "被测软件：{软件名称}{缺}")])), Some(1)));
    let table = ok(docs.create_node(tpl.id, TemplateNodeType::Table, "相关方".into(), Some(obj(&[("kind", "table"), ("source", "parties"), ("party_kind", "测评机构")])), Some(2)));
    let matrix = ok(docs.create_node(tpl.id, TemplateNodeType::TraceView, "矩阵".into(), Some(obj(&[("kind", "trace"), ("view", "matrix")])), Some(3)));
    let slot = ok(docs.create_node(tpl.id, TemplateNodeType::Paragraph, "结论".into(), Some(obj(&[("kind", "slot"), ("placeholder", "待填写")])), Some(4)));
    let field = ok(docs.create_node(tpl.id, TemplateNodeType::Paragraph, "名称".into(), Some(obj(&[("kind", "field"), ("field", "软件名称")])), Some(5)));
    for child in [&text, &table, &matrix, &slot] {
        ok(docs.add_edge(tpl.id, ch.id, child.id, "contains".into()));
    }
    let _ = field;
    World {
        docs,
        trace,
        exec: ExecutionService::new(),
        data,
        projects,
        schemes,
        project: p.id,
        template: tpl.id,
        slot_node: slot.id,
    }
}

#[test]
fn assemble_evaluates_every_block_in_document_order() {
    let w = world();
    let svc = AssemblyService::new(&w.docs, &w.trace, &w.exec, &w.data, &w.projects, &w.schemes);
    let doc = ok(svc.assemble(w.template, w.project, None, parse));
    assert_eq!(doc.template_name, "大纲");
    assert_eq!(doc.template_kind, "大纲");
    let titles: Vec<&str> = doc.blocks.iter().map(|b| b.title.as_str()).collect();
    assert_eq!(titles, vec!["第1章", "正文", "相关方", "矩阵", "结论", "名称"]);
    let depths: Vec<usize> = doc.blocks.iter().map(|b| b.depth).collect();
    assert_eq!(depths, vec![0, 1, 1, 1, 1, 0]);
    assert_eq!(doc.blocks[0].kind, BlockKind::Empty);
    assert!(matches!(doc.blocks[0].value, BlockValue::Empty));
    match &doc.blocks[1].value {
        BlockValue::Text { text } => assert_eq!(text, "被测软件：XXX系统{缺}"),
        _ => panic!("text block expected"),
    }
    match &doc.blocks[2].value {
        BlockValue::Table { table } => {
            assert_eq!(table.columns.len(), 2);
            assert_eq!(table.rows.len(), 1);
            assert_eq!(table.rows[0][1], ("name".to_string(), "乙方".to_string()));
        }
        _ => panic!("table block expected"),
    }
    match &doc.blocks[3].value {
        BlockValue::Trace { value: TraceValue::Matrix { rows } } => {
            assert_eq!(rows.len(), 1);
            assert_eq!(rows[0].requirement.title, "需求1");
            assert_eq!(rows[0].covering[0].link_type, "derives_from");
        }
        _ => panic!("matrix expected"),
    }
    match &doc.blocks[4].value {
        BlockValue::Slot { filled, text, .. } => {
            assert!(!filled);
            assert_eq!(text, "待填写");
        }
        _ => panic!("slot expected"),
    }
    match &doc.blocks[5].value {
        BlockValue::Text { text } => assert_eq!(text, "XXX系统"),
        _ => panic!("field block expected"),
    }
}

#[test]
fn assemble_fills_slots_from_the_checklist_of_the_same_project() {
    let mut w = world();
    let inst = ok(w.exec.create_instance(&w.docs, w.project, w.template, None));
    let items = ok(w.exec.list_items(inst.id));
    let item = items.iter().find(|i| i.template_node_id == w.slot_node).unwrap();
    ok(w.exec.update_item(item.id, None, Some(obj(&[("text", "通过")]))));
    let other = ok(w.exec.create_instance(&w.docs, 12345, w.template, None));

    let svc = AssemblyService::new(&w.docs, &w.trace, &w.exec, &w.data, &w.projects, &w.schemes);
    let doc = ok(svc.assemble(w.template, w.project, Some(inst.id), parse));
    match &doc.blocks[4].value {
        BlockValue::Slot { filled, text, placeholder, .. } => {
            assert!(*filled);
            assert_eq!(text, "通过");
            assert_eq!(placeholder, "待填写");
        }
        _ => panic!("slot expected"),
    }
    let foreign = ok(svc.assemble(w.template, w.project, Some(other.id), parse));
    assert!(matches!(&foreign.blocks[4].value, BlockValue::Slot { filled: false, .. }));
}

#[test]
fn assemble_reports_missing_sources_in_order() {
    let mut w = world();
    let svc = AssemblyService::new(&w.docs, &w.trace, &w.exec, &w.data, &w.projects, &w.schemes);
    assert!(matches!(svc.assemble(999, w.project, None, parse), Err(ServiceError::NotFound(m)) if m == "document_template_not_found"));
    assert!(matches!(svc.assemble(w.template, 999, None, parse), Err(ServiceError::NotFound(m)) if m == "project_not_found"));
    assert!(matches!(svc.assemble(w.template, w.project, Some(5), parse), Err(ServiceError::NotFound(m)) if m == "execution_instance_not_found"));

    ok(w.docs.create_node(w.template, TemplateNodeType::TraceView, "坏".into(), Some(obj(&[("kind", "trace"), ("view", "bogus")])), Some(9)));
    let svc = AssemblyService::new(&w.docs, &w.trace, &w.exec, &w.data, &w.projects, &w.schemes);
    assert!(matches!(svc.assemble(w.template, w.project, None, parse), Err(ServiceError::Validation(m)) if m == "unknown trace view: bogus"));
}

#[test]
fn test_items_slice_lists_only_test_items() {
    let mut w = world();
    ok(w.docs.create_node(w.template, TemplateNodeType::TraceView, "测项".into(), Some(obj(&[("kind", "trace"), ("view", "test_items")])), Some(9)));
    let svc = AssemblyService::new(&w.docs, &w.trace, &w.exec, &w.data, &w.projects, &w.schemes);
    let doc = ok(svc.assemble(w.template, w.project, None, parse));
    match &doc.blocks.last().unwrap().value {
        BlockValue::Trace { value: TraceValue::TestItems { items } } => {
            assert_eq!(items.len(), 1);
            assert_eq!(items[0].title, "测项1");
        }
        _ => panic!("test items expected"),
    }
}
