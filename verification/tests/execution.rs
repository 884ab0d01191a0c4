use mbse_testlib::document_model::TemplateNodeType;
use mbse_testlib::document_service::DocumentService;
use mbse_testlib::error::ServiceError;
use mbse_testlib::execution_model::{InstanceStatus, ItemStatus};
use mbse_testlib::execution_service::ExecutionService;

fn pid() -> u128 {
    0x0000_0000_0000_4000_8000_0000_0000_0001
}

fn ok<T>(r: Result<T, ServiceError>) -> T {
    match r {
        Ok(v) => v,
        Err(e) => panic!("unexpected error: {e:?}"),
    }
}

fn err<T>(r: Result<T, ServiceError>) -> ServiceError {
    match r {
        Ok(_) => panic!("expected an error"),
        Err(e) => e,
    }
}

#[test]
fn create_instance_derives_items_from_template_nodes_in_order() {
    let mut docs = DocumentService::new();
    let mut exec = ExecutionService::new();
    let tpl = ok(docs.create_template("大纲A".into(), "大纲".into(), None));
    ok(docs.create_node(tpl.id, TemplateNodeType::Chapter, "第2章".into(), None, Some(2)));
    ok(docs.create_node(tpl.id, TemplateNodeType::Chapter, "第1章".into(), None, Some(1)));
    ok(docs.create_node(tpl.id, TemplateNodeType::TraceView, "需求追溯".into(), None, Some(3)));

    let instance = ok(exec.create_instance(&docs, pid(), tpl.id, Some("第一轮".into())));
    assert_eq!(instance.status, InstanceStatus::Draft);
    assert_eq!(instance.project_id, pid());
    assert_eq!(exec.list_instances(pid()).len(), 1);

    let items = ok(exec.list_items(instance.id));
    assert_eq!(items.len(), 3);
    let titles: Vec<&str> = items.iter().map(|i| i.title.as_str()).collect();
    assert_eq!(titles, vec!["第1章", "第2章", "需求追溯"]);
    assert!(items.iter().all(|i| i.status == ItemStatus::Pending));

    let mut content = serde_json::Map::new();
    content.insert("text".into(), serde_json::Value::String("已填写".into()));
    let updated = ok(exec.update_item(items[0].id, Some(ItemStatus::InProgress), Some(serde_json::Value::Object(content))));
    assert_eq!(updated.status, ItemStatus::InProgress);
    assert_eq!(updated.content["text"], "已填写");
}

#[test]
fn create_instance_requires_existing_template() {
    let docs = DocumentService::new();
    let mut exec = ExecutionService::new();
    let e = err(exec.create_instance(&docs, pid(), uuid::Uuid::new_v4().as_u128(), None));
    assert!(matches!(e, ServiceError::NotFound(_)));
}

#[test]
fn execution_instances_are_isolated_by_project() {
    let mut docs = DocumentService::new();
    let mut exec = ExecutionService::new();
    let tpl = ok(docs.create_template("报告模板".into(), "报告".into(), None));
    let a = pid();
    let b = uuid::Uuid::new_v4().as_u128();
    ok(exec.create_instance(&docs, a, tpl.id, None));
    ok(exec.create_instance(&docs, a, tpl.id, Some("第二轮".into())));
    assert_eq!(exec.list_instances(a).len(), 2);
    assert!(exec.list_instances(b).is_empty());

    let inst_b = ok(exec.create_instance(&docs, b, tpl.id, None));
    assert_eq!(exec.list_instances(b).len(), 1);
    assert_eq!(inst_b.project_id, b);
    assert_eq!(exec.list_instances(a).len(), 2);
}

#[test]
fn update_instance_and_status_names() {
    let mut docs = DocumentService::new();
    let mut exec = ExecutionService::new();
    let tpl = ok(docs.create_template("大纲".into(), "大纲".into(), None));
    let inst = ok(exec.create_instance(&docs, pid(), tpl.id, Some("第一轮".into())));
    let u = ok(exec.update_instance(inst.id, Some(InstanceStatus::Completed), None));
    assert_eq!(u.status, InstanceStatus::Completed);
    assert_eq!(u.stage.as_deref(), Some("第一轮"));
    let u2 = ok(exec.update_instance(inst.id, None, Some(None)));
    assert_eq!(u2.stage, None);
    assert!(matches!(err(exec.update_instance(42, None, None)), ServiceError::NotFound(_)));
    assert!(matches!(err(exec.update_item(42, None, None)), ServiceError::NotFound(_)));
    assert!(matches!(err(exec.list_items(42)), ServiceError::NotFound(_)));

    for s in [InstanceStatus::Draft, InstanceStatus::InProgress, InstanceStatus::Completed] {
        assert_eq!(InstanceStatus::parse(s.as_str()), Some(s));
    }
    for s in [ItemStatus::Pending, ItemStatus::InProgress, ItemStatus::Completed, ItemStatus::Skipped] {
        assert_eq!(ItemStatus::parse(s.as_str()), Some(s));
    }
    assert_eq!(InstanceStatus::parse("In_Progress"), Some(InstanceStatus::InProgress));
    assert_eq!(ItemStatus::parse("done"), None);
}
