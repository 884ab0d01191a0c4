use mbse_testlib::error::{RepositoryError, ServiceError};
use mbse_testlib::execution_service::ExecutionService;
use mbse_testlib::document_service::DocumentService;
use mbse_testlib::project_service::{ProjectDataService, ProjectService};
use mbse_testlib::projectdata::{DataRow, FieldValueWrite, ProjectDataWrite, TableRowsWrite};
use mbse_testlib::scheme::{normalize, SchemeColumnSpec, SchemeFieldSpec, SchemeSpec, SchemeTableSpec};
use mbse_testlib::scheme_service::SchemeService;
use mbse_testlib::settings::Settings;
use mbse_testlib::trace_model::TraceNodeKind;
use mbse_testlib::trace_service::TraceService;

fn ok<T>(r: Result<T, ServiceError>) -> T {
    match r {
        Ok(v) => v,
        Err(e) => panic!("unexpected error: {e:?}"),
    }
}

fn err<T>(r: Result<T, ServiceError>) -> ServiceError {
    match r {
        Ok(_) => panic!("expected an error"),
        Err(e) => e,
    }
}

fn message(e: &ServiceError) -> String {
    match e {
        ServiceError::NotFound(m) | ServiceError::Validation(m) | ServiceError::Conflict(m) | ServiceError::Repository(m) => m.clone(),
    }
}

fn spec(name: &str) -> SchemeSpec {
    SchemeSpec {
        name: name.into(),
        description: String::new(),
        fields: vec![SchemeFieldSpec { doc_kind: String::new(), field_key: "项目代号".into(), label: String::new(), sort_key: 0 }],
        tables: vec![SchemeTableSpec {
            table_key: "parties".into(),
            label: String::new(),
            sort_key: 0,
            columns: vec![SchemeColumnSpec { column_key: "name".into(), label: String::new(), sort_key: 0 }],
        }],
    }
}

#[test]
fn normalize_fills_defaults() {
    let s = ok(normalize(spec("一套")));
    assert_eq!(s.name, "一套");
    assert_eq!(s.fields[0].doc_kind, "project");
    assert_eq!(s.fields[0].label, "项目代号");
    assert_eq!(s.tables[0].label, "parties");
    assert_eq!(s.tables[0].columns[0].label, "name");
}

#[test]
fn normalize_rejects_empty_name_key_and_duplicates() {
    assert!(normalize(spec("  ")).is_err());
    let mut dup = spec("一套");
    dup.fields.push(SchemeFieldSpec { doc_kind: "project".into(), field_key: "项目代号".into(), label: String::new(), sort_key: 1 });
    assert!(normalize(dup).is_err());
    let mut empty_key = spec("一套");
    empty_key.tables[0].columns[0].column_key = "  ".into();
    assert!(normalize(empty_key).is_err());
}

#[test]
fn normalize_reports_the_first_problem() {
    let mut dup_table = spec("一套");
    dup_table.tables.push(SchemeTableSpec { table_key: " parties ".into(), label: String::new(), sort_key: 1, columns: vec![] });
    assert_eq!(message(&err(normalize(dup_table))), "duplicate scheme table: parties");
    let mut dup_field = spec("一套");
    dup_field.fields.push(SchemeFieldSpec { doc_kind: "project".into(), field_key: "项目代号".into(), label: String::new(), sort_key: 1 });
    assert_eq!(message(&err(normalize(dup_field))), "duplicate scheme field (project, 项目代号)");
    assert_eq!(message(&err(normalize(spec(" ")))), "scheme name must not be empty");
}

fn setup() -> (SchemeService, ProjectService, ProjectDataService, u128, u128) {
    let mut schemes = SchemeService::new();
    let full = ok(schemes.create(spec("一套")));
    let mut projects = ProjectService::new();
    let p = ok(projects.create(" 项目甲 ".into(), Some(full.scheme.id), &schemes));
    assert_eq!(p.name, "项目甲");
    (schemes, projects, ProjectDataService::new(), p.id, full.scheme.id)
}

#[test]
fn project_names_are_unique_and_trimmed() {
    let (schemes, mut projects, _, id, _) = setup();
    assert!(matches!(err(projects.create("项目甲".into(), None, &schemes)), ServiceError::Conflict(_)));
    assert!(matches!(err(projects.create(" ".into(), None, &schemes)), ServiceError::Validation(_)));
    assert!(matches!(err(projects.create("乙".into(), Some(77), &schemes)), ServiceError::NotFound(_)));
    let q = ok(projects.create("乙".into(), None, &schemes));
    assert!(matches!(err(projects.rename(q.id, " 项目甲".into())), ServiceError::Conflict(_)));
    let r = ok(projects.rename(id, "项目甲".into()));
    assert_eq!(r.name, "项目甲");
    assert_eq!(projects.list().len(), 2);
}

#[test]
fn data_written_is_read_back_and_renumbered() {
    let (schemes, projects, mut data, id, sid) = setup();
    let def = ok(schemes.get(sid));
    let field_id = def.fields[0].id;
    let table_id = def.tables[0].table.id;
    let write = ProjectDataWrite {
        fields: vec![FieldValueWrite { field_id, value: "RT25046001".into() }],
        tables: vec![TableRowsWrite {
            table_id,
            rows: vec![
                DataRow { row_index: 7, cells: vec![("name".into(), " 乙方 ".into()), ("stale".into(), "x".into())] },
                DataRow { row_index: 3, cells: vec![("name".into(), "甲方".into())] },
            ],
        }],
    };
    let v = ok(data.replace(id, write, &projects, &schemes));
    assert_eq!(v.fields[0].value, "RT25046001");
    let again = ok(data.view(id, &projects, &schemes));
    assert_eq!(again.fields[0].value, "RT25046001");
    let rows = &again.tables[0].rows;
    assert_eq!(rows.len(), 2);
    assert_eq!((rows[0].row_index, rows[1].row_index), (0, 1));
    assert_eq!(rows[0].cells, vec![("name".to_string(), "甲方".to_string())]);
    assert_eq!(rows[1].cells, vec![("name".to_string(), "乙方".to_string())]);

    let foreign = ProjectDataWrite { fields: vec![FieldValueWrite { field_id: 5, value: "v".into() }], tables: vec![] };
    let e = err(data.replace(id, foreign, &projects, &schemes));
    match e {
        ServiceError::Validation(m) => {
            assert_eq!(m, "field 00000000-0000-0000-0000-000000000005 does not belong to the project scheme")
        },
        other => panic!("unexpected error: {:?}", other),
    }
    assert_eq!(ok(data.view(id, &projects, &schemes)).fields[0].value, "RT25046001");
}

#[test]
fn rebinding_the_scheme_clears_the_data_and_same_scheme_keeps_it() {
    let (mut schemes, mut projects, mut data, id, sid) = setup();
    let def = ok(schemes.get(sid));
    let write = ProjectDataWrite { fields: vec![FieldValueWrite { field_id: def.fields[0].id, value: "甲".into() }], tables: vec![] };
    ok(data.replace(id, write, &projects, &schemes));

    let same = ok(projects.bind_scheme(id, Some(sid), &schemes, &mut data));
    assert_eq!(same.scheme_id, Some(sid));
    assert_eq!(ok(data.view(id, &projects, &schemes)).fields[0].value, "甲");

    let other = ok(schemes.create(spec("二套")));
    let moved = ok(projects.bind_scheme(id, Some(other.scheme.id), &schemes, &mut data));
    assert_eq!(moved.scheme_id, Some(other.scheme.id));
    assert_eq!(ok(data.view(id, &projects, &schemes)).fields[0].value, "");
    assert!(matches!(err(schemes.delete(other.scheme.id, &projects)), ServiceError::Conflict(_)));

    let unbound = ok(projects.bind_scheme(id, None, &schemes, &mut data));
    assert_eq!(unbound.scheme_id, None);
    assert!(ok(data.view(id, &projects, &schemes)).fields.is_empty());
    assert!(matches!(err(projects.bind_scheme(id, Some(999), &schemes, &mut data)), ServiceError::NotFound(_)));
    assert_eq!(message(&err(projects.bind_scheme(999, None, &schemes, &mut data))), "project_not_found");
    ok(schemes.delete(other.scheme.id, &projects));
}

#[test]
fn deleting_a_project_removes_what_it_owns() {
    let (schemes, mut projects, mut data, id, sid) = setup();
    let def = ok(schemes.get(sid));
    let write = ProjectDataWrite { fields: vec![FieldValueWrite { field_id: def.fields[0].id, value: "甲".into() }], tables: vec![] };
    ok(data.replace(id, write, &projects, &schemes));
    let mut trace = TraceService::new();
    ok(trace.create_node(id, TraceNodeKind::SoftwareRequirement, "el".into(), "SR1".into(), None, "需求".into(), None));
    let keep = uuid::Uuid::new_v4().as_u128();
    ok(trace.create_node(keep, TraceNodeKind::SoftwareRequirement, "el".into(), "SR1".into(), None, "需求".into(), None));
    let mut docs = DocumentService::new();
    let tpl = ok(docs.create_template("大纲".into(), "大纲".into(), None));
    let mut exec = ExecutionService::new();
    ok(exec.create_instance(&docs, id, tpl.id, None));

    ok(projects.delete(id, &mut data, &mut trace, &mut exec));
    assert!(matches!(err(projects.get(id)), ServiceError::NotFound(_)));
    assert!(trace.list_nodes(id).is_empty());
    assert_eq!(trace.list_nodes(keep).len(), 1);
    assert!(exec.list_instances(id).is_empty());
    assert!(data.values.is_empty());
    assert_eq!(message(&err(projects.delete(id, &mut data, &mut trace, &mut exec))), "project_not_found");
}

#[test]
fn errors_map_to_statuses_and_messages() {
    let e = ServiceError::NotFound("x".into());
    assert_eq!(e.status(), (404, "not_found"));
    assert_eq!(e.to_message(), "not found: x");
    assert_eq!(ServiceError::Validation("v".into()).status(), (400, "validation_error"));
    assert_eq!(ServiceError::Conflict("c".into()).status().0, 409);
    assert_eq!(ServiceError::Repository("r".into()).to_message(), "repository: r");
    let from: ServiceError = RepositoryError::Conflict.into();
    assert_eq!(message(&from), "resource_conflict");
    assert!(matches!(ServiceError::from(RepositoryError::NotFound), ServiceError::NotFound(_)));
    assert_eq!(RepositoryError::Database("boom".into()).to_message(), "database error: boom");
}

#[test]
fn settings_refuse_blank_host_and_zero_port() {
    assert_eq!(
        Settings::from_config(" ".into(), 8080, None).err().unwrap(),
        "config `server.host` must not be empty"
    );
    assert_eq!(
        Settings::from_config("127.0.0.1".into(), 0, None).err().unwrap(),
        "config `server.port` must not be zero"
    );
    let s = Settings::from_config("127.0.0.1".into(), 38123, Some("  ".into())).ok().unwrap();
    assert_eq!(s.configured_database_url(), None);
    let s = Settings::from_config("127.0.0.1".into(), 38123, Some("postgres://x".into())).ok().unwrap();
    assert_eq!(s.configured_database_url().as_deref(), Some("postgres://x"));
}

#[test]
fn normalizing_a_normalized_definition_gives_it_back() {
    let once = ok(normalize(spec("  一套  ")));
    let twice = ok(normalize(ok(normalize(spec("  一套  ")))));
    assert_eq!(twice.name, once.name);
    assert_eq!(twice.description, once.description);
    assert_eq!(twice.fields.len(), once.fields.len());
    for (a, b) in twice.fields.iter().zip(once.fields.iter()) {
        assert_eq!((&a.doc_kind, &a.field_key, &a.label, a.sort_key), (&b.doc_kind, &b.field_key, &b.label, b.sort_key));
    }
    assert_eq!(twice.tables.len(), once.tables.len());
    for (a, b) in twice.tables.iter().zip(once.tables.iter()) {
        assert_eq!((&a.table_key, &a.label, a.sort_key), (&b.table_key, &b.label, b.sort_key));
        let ca: Vec<(&String, &String)> = a.columns.iter().map(|c| (&c.column_key, &c.label)).collect();
        let cb: Vec<(&String, &String)> = b.columns.iter().map(|c| (&c.column_key, &c.label)).collect();
        assert_eq!(ca, cb);
    }
}
